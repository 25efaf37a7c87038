//! Dependency graph with topological sort and cycle detection.

use std::any::TypeId;
use std::collections::VecDeque;
use vstd::prelude::*;
use vstd::set_lib::*;

use crate::text::{decimal, escape_label, escaped, push_char, push_decimal, push_str};
use crate::typeid::type_id_eq;

verus! {

broadcast use vstd::seq_lib::group_seq_properties;

/// A node in the dependency graph.
#[derive(Debug, Clone)]
pub struct ModuleEntry {
    /// The module's `TypeId`.
    pub type_id: TypeId,
    /// The module's diagnostic name.
    pub name: &'static str,
    /// (name, `TypeId`) pairs of modules this module depends on.
    pub dependencies: Vec<(&'static str, TypeId)>,
}

/// Errors from graph validation.
#[derive(Debug, Clone, PartialEq, Eq)]
pub enum GraphError {
    /// A module depends on an unregistered module.
    DependencyMissing { module: &'static str, missing: &'static str },
    /// A dependency cycle was detected.
    CycleDetected { cycle: Vec<&'static str> },
}

/// `names` joined with ` -> ` between consecutive names.
pub open spec fn name_chain(names: Seq<&'static str>) -> Seq<char>
    decreases names.len(),
{
    if names.len() == 0 {
        Seq::empty()
    } else if names.len() == 1 {
        names[0]@
    } else {
        name_chain(names.drop_last()) + " -> "@ + names.last()@
    }
}

impl GraphError {
    /// The text of the error.
    pub open spec fn text(&self) -> Seq<char> {
        match self {
            GraphError::DependencyMissing { module, missing } => "module `"@ + module@
                + "` depends on unregistered module `"@ + missing@ + "`"@,
            GraphError::CycleDetected { cycle } => "dependency cycle detected: "@ + name_chain(
                cycle@,
            ),
        }
    }

    /// Human-readable description: the module and its missing dependency,
    /// or the names along the cycle joined with ` -> `.
    pub fn message(&self) -> (r: String)
        ensures
            r@ == self.text(),
    {
        let mut out = String::new();
        match self {
            GraphError::DependencyMissing { module, missing } => {
                push_str(&mut out, "module `");
                push_str(&mut out, module);
                push_str(&mut out, "` depends on unregistered module `");
                push_str(&mut out, missing);
                push_str(&mut out, "`");
                proof {
                    assert(out@ =~= self.text());
                }
            },
            GraphError::CycleDetected { cycle } => {
                push_str(&mut out, "dependency cycle detected: ");
                let ghost head = out@;
                let mut i: usize = 0;
                while i < cycle.len()
                    invariant
                        i <= cycle@.len(),
                        out@ == head + name_chain(cycle@.take(i as int)),
                    decreases cycle@.len() - i,
                {
                    proof {
                        assert(cycle@.take(i + 1).drop_last() =~= cycle@.take(i as int));
                    }
                    if i > 0 {
                        push_str(&mut out, " -> ");
                    }
                    push_str(&mut out, cycle[i]);
                    i += 1;
                    proof {
                        if i == 1 {
                            assert(name_chain(cycle@.take(0)) =~= Seq::<char>::empty());
                        }
                        assert(out@ =~= head + name_chain(cycle@.take(i as int)));
                    }
                }
                proof {
                    assert(cycle@.take(i as int) =~= cycle@);
                }
            },
        }
        out
    }
}


/// One DOT node line: `    "<name>";` plus newline.
pub open spec fn dot_node_line(name: Seq<char>) -> Seq<char> {
    "    \""@ + escaped(name) + "\";\n"@
}

/// DOT node lines of `es`, in order.
pub open spec fn dot_nodes(es: Seq<ModuleEntry>) -> Seq<char>
    decreases es.len(),
{
    if es.len() == 0 {
        Seq::empty()
    } else {
        dot_nodes(es.drop_last()) + dot_node_line(es.last().name@)
    }
}

/// One DOT edge line: `    "<from>" -> "<to>";` plus newline.
pub open spec fn dot_edge_line(from: Seq<char>, to: Seq<char>) -> Seq<char> {
    "    \""@ + escaped(from) + "\" -> \""@ + escaped(to) + "\";\n"@
}

/// DOT edge lines from each dependency in `deps` to the module named `to`.
pub open spec fn dot_dep_lines(deps: Seq<(&'static str, TypeId)>, to: Seq<char>) -> Seq<char>
    decreases deps.len(),
{
    if deps.len() == 0 {
        Seq::empty()
    } else {
        dot_dep_lines(deps.drop_last(), to) + dot_edge_line(deps.last().0@, to)
    }
}

/// DOT edge lines (dependency -> dependent) of `es`, in order.
pub open spec fn dot_edges(es: Seq<ModuleEntry>) -> Seq<char>
    decreases es.len(),
{
    if es.len() == 0 {
        Seq::empty()
    } else {
        dot_edges(es.drop_last()) + dot_dep_lines(es.last().dependencies@, es.last().name@)
    }
}

/// Graphviz DOT text of the graph with entries `es`.
pub open spec fn dot_text(es: Seq<ModuleEntry>) -> Seq<char> {
    if es.len() == 0 {
        "digraph {}"@
    } else {
        "digraph {\n"@ + dot_nodes(es) + dot_edges(es) + "}"@
    }
}

/// `part` occurs in `whole` at some position.
pub open spec fn is_infix(part: Seq<char>, whole: Seq<char>) -> bool {
    exists|off: int|
        0 <= off && off + part.len() <= whole.len() && #[trigger] whole.subrange(off, off + part.len()) == part
}

proof fn lemma_infix_extend(part: Seq<char>, a: Seq<char>, b: Seq<char>)
    requires
        is_infix(part, a),
    ensures
        is_infix(part, a + b),
        is_infix(part, b + a),
{
    let off = choose|off: int|
        0 <= off && off + part.len() <= a.len() && #[trigger] a.subrange(off, off + part.len()) == part;
    assert((a + b).subrange(off, off + part.len()) =~= a.subrange(off, off + part.len()));
    let off2 = b.len() + off;
    assert((b + a).subrange(off2, off2 + part.len()) =~= a.subrange(off, off + part.len()));
}

proof fn lemma_infix_self(part: Seq<char>)
    ensures
        is_infix(part, part),
{
    let off: int = 0;
    assert(part.subrange(off, off + part.len()) =~= part);
}

proof fn lemma_dep_lines_have_edge(deps: Seq<(&'static str, TypeId)>, to: Seq<char>, k: int)
    requires
        0 <= k < deps.len(),
    ensures
        is_infix("    \""@ + escaped(deps[k].0@) + "\" -> \""@ + escaped(to) + "\";\n"@, dot_dep_lines(deps, to)),
    decreases deps.len(),
{
    let line = "    \""@ + escaped(deps[k].0@) + "\" -> \""@ + escaped(to) + "\";\n"@;
    let prev = dot_dep_lines(deps.drop_last(), to);
    if k == deps.len() - 1 {
        lemma_infix_self(line);
        lemma_infix_extend(line, line, prev);
    } else {
        assert(deps.drop_last()[k] == deps[k]);
        lemma_dep_lines_have_edge(deps.drop_last(), to, k);
        lemma_infix_extend(line, prev, dot_edge_line(deps.last().0@, to));
    }
}

proof fn lemma_edges_have_edge(es: Seq<ModuleEntry>, i: int, k: int)
    requires
        0 <= i < es.len(),
        0 <= k < es[i].dependencies@.len(),
    ensures
        is_infix(
            "    \""@ + escaped(es[i].dependencies@[k].0@) + "\" -> \""@ + escaped(es[i].name@) + "\";\n"@,
            dot_edges(es),
        ),
    decreases es.len(),
{
    let line = "    \""@ + escaped(es[i].dependencies@[k].0@) + "\" -> \""@ + escaped(es[i].name@) + "\";\n"@;
    let prev = dot_edges(es.drop_last());
    let last = dot_dep_lines(es.last().dependencies@, es.last().name@);
    if i == es.len() - 1 {
        lemma_dep_lines_have_edge(es[i].dependencies@, es[i].name@, k);
        lemma_infix_extend(line, last, prev);
    } else {
        assert(es.drop_last()[i] == es[i]);
        lemma_edges_have_edge(es.drop_last(), i, k);
        lemma_infix_extend(line, prev, last);
    }
}

/// The DOT text draws every declared dependency: for each module and each
/// of its dependencies, the text holds the line
/// `    "<dependency>" -> "<module>";` with both names escaped.
pub proof fn lemma_dot_draws_every_dependency(es: Seq<ModuleEntry>, i: int, k: int)
    requires
        0 <= i < es.len(),
        0 <= k < es[i].dependencies@.len(),
    ensures
        is_infix(
            "    \""@ + escaped(es[i].dependencies@[k].0@) + "\" -> \""@ + escaped(es[i].name@) + "\";\n"@,
            dot_text(es),
        ),
{
    let line = "    \""@ + escaped(es[i].dependencies@[k].0@) + "\" -> \""@ + escaped(es[i].name@) + "\";\n"@;
    lemma_edges_have_edge(es, i, k);
    lemma_infix_extend(line, dot_edges(es), "digraph {\n"@ + dot_nodes(es));
    lemma_infix_extend(line, "digraph {\n"@ + dot_nodes(es) + dot_edges(es), "}"@);
    assert("digraph {\n"@ + dot_nodes(es) + dot_edges(es) + "}"@ == dot_text(es));
}

/// One Mermaid node label: `n<idx>["<name>"]`.
pub open spec fn mermaid_node(idx: nat, name: Seq<char>) -> Seq<char> {
    "n"@ + decimal(idx) + "[\""@ + escaped(name) + "\"]"@
}

/// One Mermaid edge line from node `from` to node `to`.
pub open spec fn mermaid_edge_line(from: nat, from_name: Seq<char>, to: nat, to_name: Seq<char>) -> Seq<char> {
    "    "@ + mermaid_node(from, from_name) + " --> "@ + mermaid_node(to, to_name) + "\n"@
}

/// One Mermaid line for a module without dependencies.
pub open spec fn mermaid_isolated_line(idx: nat, name: Seq<char>) -> Seq<char> {
    "    "@ + mermaid_node(idx, name) + "\n"@
}

impl DependencyGraph {
    /// Mermaid edge lines for the dependencies `deps` of entry `idx`; edges to
    /// unregistered modules are skipped.
    pub open spec fn mermaid_dep_lines(self, deps: Seq<(&'static str, TypeId)>, idx: nat) -> Seq<char>
        decreases deps.len(),
    {
        if deps.len() == 0 {
            Seq::empty()
        } else {
            self.mermaid_dep_lines(deps.drop_last(), idx) + (if self.contains_id(deps.last().1) {
                mermaid_edge_line(
                    self.index_of_id(deps.last().1) as nat,
                    deps.last().0@,
                    idx,
                    self@[idx as int].name@,
                )
            } else {
                Seq::empty()
            })
        }
    }

    /// Mermaid edge lines of the first `m` entries.
    pub open spec fn mermaid_edges(self, m: nat) -> Seq<char>
        decreases m,
    {
        if m == 0 {
            Seq::empty()
        } else {
            self.mermaid_edges((m - 1) as nat) + self.mermaid_dep_lines(self.deps(m - 1), (m - 1) as nat)
        }
    }

    /// Mermaid node lines of those of the first `m` entries that have no dependencies.
    pub open spec fn mermaid_isolated(self, m: nat) -> Seq<char>
        decreases m,
    {
        if m == 0 {
            Seq::empty()
        } else {
            self.mermaid_isolated((m - 1) as nat) + (if self.deps(m - 1).len() == 0 {
                mermaid_isolated_line((m - 1) as nat, self@[m - 1].name@)
            } else {
                Seq::empty()
            })
        }
    }

    /// Mermaid flowchart text of the graph.
    pub open spec fn mermaid_text(self) -> Seq<char> {
        if self@.len() == 0 {
            "graph TD"@
        } else {
            "graph TD\n"@ + self.mermaid_edges(self@.len()) + self.mermaid_isolated(self@.len())
        }
    }
}

impl DependencyGraph {
    proof fn lemma_mermaid_dep_lines_have_edge(self, deps: Seq<(&'static str, TypeId)>, idx: nat, k: int)
        requires
            0 <= k < deps.len(),
            self.contains_id(deps[k].1),
        ensures
            is_infix(
                "    "@ + "n"@ + decimal(self.index_of_id(deps[k].1) as nat) + "[\""@ + escaped(deps[k].0@)
                    + "\"]"@ + " --> "@ + "n"@ + decimal(idx) + "[\""@ + escaped(self@[idx as int].name@) + "\"]"@
                    + "\n"@,
                self.mermaid_dep_lines(deps, idx),
            ),
        decreases deps.len(),
    {
        let line = "    "@ + "n"@ + decimal(self.index_of_id(deps[k].1) as nat) + "[\""@ + escaped(deps[k].0@)
            + "\"]"@ + " --> "@ + "n"@ + decimal(idx) + "[\""@ + escaped(self@[idx as int].name@) + "\"]"@
            + "\n"@;
        let prev = self.mermaid_dep_lines(deps.drop_last(), idx);
        let tail = if self.contains_id(deps.last().1) {
            mermaid_edge_line(
                self.index_of_id(deps.last().1) as nat,
                deps.last().0@,
                idx,
                self@[idx as int].name@,
            )
        } else {
            Seq::empty()
        };
        if k == deps.len() - 1 {
            assert(tail =~= line);
            lemma_infix_self(line);
            lemma_infix_extend(line, line, prev);
        } else {
            assert(deps.drop_last()[k] == deps[k]);
            self.lemma_mermaid_dep_lines_have_edge(deps.drop_last(), idx, k);
            lemma_infix_extend(line, prev, tail);
        }
    }

    proof fn lemma_mermaid_edges_have_edge(self, m: nat, i: int, k: int)
        requires
            0 <= i < m,
            0 <= k < self.deps(i).len(),
            self.contains_id(self.deps(i)[k].1),
        ensures
            is_infix(
                "    "@ + "n"@ + decimal(self.index_of_id(self.deps(i)[k].1) as nat) + "[\""@ + escaped(
                    self.deps(i)[k].0@,
                ) + "\"]"@ + " --> "@ + "n"@ + decimal(i as nat) + "[\""@ + escaped(self@[i].name@) + "\"]"@
                    + "\n"@,
                self.mermaid_edges(m),
            ),
        decreases m,
    {
        let line = "    "@ + "n"@ + decimal(self.index_of_id(self.deps(i)[k].1) as nat) + "[\""@ + escaped(
            self.deps(i)[k].0@,
        ) + "\"]"@ + " --> "@ + "n"@ + decimal(i as nat) + "[\""@ + escaped(self@[i].name@) + "\"]"@
            + "\n"@;
        let prev = self.mermaid_edges((m - 1) as nat);
        let last = self.mermaid_dep_lines(self.deps(m - 1), (m - 1) as nat);
        if i == m - 1 {
            self.lemma_mermaid_dep_lines_have_edge(self.deps(i), i as nat, k);
            lemma_infix_extend(line, last, prev);
        } else {
            self.lemma_mermaid_edges_have_edge((m - 1) as nat, i, k);
            lemma_infix_extend(line, prev, last);
        }
    }

    proof fn lemma_mermaid_isolated_has_line(self, m: nat, i: int)
        requires
            0 <= i < m,
            self.deps(i).len() == 0,
        ensures
            is_infix(
                "    "@ + "n"@ + decimal(i as nat) + "[\""@ + escaped(self@[i].name@) + "\"]"@ + "\n"@,
                self.mermaid_isolated(m),
            ),
        decreases m,
    {
        let line = "    "@ + "n"@ + decimal(i as nat) + "[\""@ + escaped(self@[i].name@) + "\"]"@ + "\n"@;
        let prev = self.mermaid_isolated((m - 1) as nat);
        let last = if self.deps(m - 1).len() == 0 {
            mermaid_isolated_line((m - 1) as nat, self@[m - 1].name@)
        } else {
            Seq::empty()
        };
        if i == m - 1 {
            assert(last =~= line);
            lemma_infix_self(line);
            lemma_infix_extend(line, line, prev);
        } else {
            self.lemma_mermaid_isolated_has_line((m - 1) as nat, i);
            lemma_infix_extend(line, prev, last);
        }
    }

    /// The Mermaid text draws every dependency on a registered module, from
    /// the dependency's node (numbered by its registration position) to the
    /// module's node, and lists every module without dependencies as a node
    /// of its own.
    pub proof fn lemma_mermaid_draws_every_dependency(self, i: int)
        requires
            0 <= i < self@.len(),
        ensures
            forall|k: int|
                0 <= k < self.deps(i).len() && self.contains_id(#[trigger] self.deps(i)[k].1) ==> is_infix(
                    "    "@ + "n"@ + decimal(self.index_of_id(self.deps(i)[k].1) as nat) + "[\""@ + escaped(
                        self.deps(i)[k].0@,
                    ) + "\"]"@ + " --> "@ + "n"@ + decimal(i as nat) + "[\""@ + escaped(self@[i].name@)
                        + "\"]"@ + "\n"@,
                    self.mermaid_text(),
                ),
            self.deps(i).len() == 0 ==> is_infix(
                "    "@ + "n"@ + decimal(i as nat) + "[\""@ + escaped(self@[i].name@) + "\"]"@ + "\n"@,
                self.mermaid_text(),
            ),
    {
        let n = self@.len();
        let head = "graph TD\n"@;
        let edges = self.mermaid_edges(n);
        let iso = self.mermaid_isolated(n);
        assert(self.mermaid_text() == head + edges + iso);
        assert forall|k: int|
            0 <= k < self.deps(i).len() && self.contains_id(#[trigger] self.deps(i)[k].1) implies is_infix(
                "    "@ + "n"@ + decimal(self.index_of_id(self.deps(i)[k].1) as nat) + "[\""@ + escaped(
                    self.deps(i)[k].0@,
                ) + "\"]"@ + " --> "@ + "n"@ + decimal(i as nat) + "[\""@ + escaped(self@[i].name@) + "\"]"@
                    + "\n"@,
                self.mermaid_text(),
            ) by {
            let line = "    "@ + "n"@ + decimal(self.index_of_id(self.deps(i)[k].1) as nat) + "[\""@ + escaped(
                self.deps(i)[k].0@,
            ) + "\"]"@ + " --> "@ + "n"@ + decimal(i as nat) + "[\""@ + escaped(self@[i].name@) + "\"]"@
                + "\n"@;
            self.lemma_mermaid_edges_have_edge(n, i, k);
            lemma_infix_extend(line, edges, head);
            lemma_infix_extend(line, head + edges, iso);
        }
        if self.deps(i).len() == 0 {
            let line = "    "@ + "n"@ + decimal(i as nat) + "[\""@ + escaped(self@[i].name@) + "\"]"@ + "\n"@;
            self.lemma_mermaid_isolated_has_line(n, i);
            lemma_infix_extend(line, iso, head + edges);
        }
    }
}


fn push_mermaid_node(out: &mut String, idx: usize, name: &str)
    ensures
        final(out)@ == old(out)@ + mermaid_node(idx as nat, name@),
{
    push_char(out, 'n');
    push_decimal(out, idx);
    push_str(out, "[\"");
    let label = escape_label(name);
    push_str(out, label.as_str());
    push_str(out, "\"]");
    proof {
        reveal_strlit("n");
        assert(final(out)@ =~= old(out)@ + mermaid_node(idx as nat, name@));
    }
}

fn push_mermaid_edge(out: &mut String, from: usize, from_name: &str, to: usize, to_name: &str)
    ensures
        final(out)@ == old(out)@ + mermaid_edge_line(from as nat, from_name@, to as nat, to_name@),
{
    push_str(out, "    ");
    push_mermaid_node(out, from, from_name);
    push_str(out, " --> ");
    push_mermaid_node(out, to, to_name);
    push_char(out, '\n');
    proof {
        reveal_strlit("\n");
        assert(final(out)@ =~= old(out)@ + mermaid_edge_line(from as nat, from_name@, to as nat, to_name@));
    }
}

fn push_mermaid_isolated(out: &mut String, idx: usize, name: &str)
    ensures
        final(out)@ == old(out)@ + mermaid_isolated_line(idx as nat, name@),
{
    push_str(out, "    ");
    push_mermaid_node(out, idx, name);
    push_char(out, '\n');
    proof {
        reveal_strlit("\n");
        assert(final(out)@ =~= old(out)@ + mermaid_isolated_line(idx as nat, name@));
    }
}

/// Dependency graph for topological sort and cycle detection.
///
/// Entries are kept in registration order; their `TypeId`s are pairwise
/// distinct (see [`DependencyGraph::wf`]), which is what makes a lookup by
/// `TypeId` unambiguous.
#[derive(Debug)]
pub struct DependencyGraph {
    entries: Vec<ModuleEntry>,
}

impl View for DependencyGraph {
    type V = Seq<ModuleEntry>;

    closed spec fn view(&self) -> Seq<ModuleEntry> {
        self.entries@
    }
}

/// Number of occurrences of `v` in `s`.
pub open spec fn occ(s: Seq<usize>, v: usize) -> nat
    decreases s.len(),
{
    if s.len() == 0 {
        0
    } else {
        occ(s.drop_last(), v) + (if s.last() == v { 1nat } else { 0nat })
    }
}

proof fn lemma_occ_push(s: Seq<usize>, x: usize, v: usize)
    ensures
        occ(s.push(x), v) == occ(s, v) + (if x == v { 1nat } else { 0nat }),
{
    assert(s.push(x).drop_last() =~= s);
}

proof fn lemma_occ_take(s: Seq<usize>, p: int, v: usize)
    requires
        0 <= p < s.len(),
    ensures
        occ(s.take(p + 1), v) == occ(s.take(p), v) + (if s[p] == v { 1nat } else { 0nat }),
        occ(s.take(p + 1), v) <= occ(s, v),
    decreases s.len() - p,
{
    assert(s.take(p + 1).drop_last() =~= s.take(p));
    if p + 1 == s.len() {
        assert(s.take(p + 1) =~= s);
    } else {
        lemma_occ_take(s, p + 1, v);
    }
}

proof fn lemma_occ_full(s: Seq<usize>, v: usize)
    ensures
        occ(s.take(s.len() as int), v) == occ(s, v),
{
    assert(s.take(s.len() as int) =~= s);
}

/// A duplicate-free sequence of indices below `n` has at most `n` elements,
/// and exactly `n` only if it holds every index below `n`.
proof fn lemma_pigeonhole(s: Seq<usize>, n: nat)
    requires
        s.no_duplicates(),
        forall|x: int| 0 <= x < s.len() ==> s[x] < n,
    ensures
        s.len() <= n,
        s.len() == n ==> forall|v: usize| v < n ==> s.contains(v),
{
    let t = s.map_values(|x: usize| x as int);
    assert forall|a: int, b: int| 0 <= a < t.len() && 0 <= b < t.len() && a != b implies t[a]
        != t[b] by {
        assert(s[a] != s[b]);
    }
    assert(t.no_duplicates());
    t.unique_seq_to_set();
    lemma_int_range(0, n as int);
    assert forall|v: int| t.to_set().contains(v) implies set_int_range(0, n as int).contains(v) by {
        assert(t.contains(v));
        let x = choose|x: int| 0 <= x < t.len() && t[x] == v;
        assert(s[x] < n);
    }
    lemma_len_subset(t.to_set(), set_int_range(0, n as int));
    if s.len() == n {
        lemma_subset_equality(t.to_set(), set_int_range(0, n as int));
        assert forall|v: usize| v < n implies s.contains(v) by {
            assert(set_int_range(0, n as int).contains(v as int));
            assert(t.to_set().contains(v as int));
            let x = choose|x: int| 0 <= x < t.len() && t[x] == v as int;
            assert(s[x] == v);
        }
    }
}




/// Number of unvisited (`0`) marks in `s`.
pub open spec fn white_count(s: Seq<u8>) -> nat
    decreases s.len(),
{
    if s.len() == 0 {
        0
    } else {
        white_count(s.drop_last()) + (if s.last() == 0 { 1nat } else { 0nat })
    }
}

proof fn lemma_white_count_update(s: Seq<u8>, i: int, m: u8)
    requires
        0 <= i < s.len(),
    ensures
        white_count(s.update(i, m)) + (if s[i] == 0 { 1nat } else { 0nat }) == white_count(s) + (
        if m == 0 {
            1nat
        } else {
            0nat
        }),
    decreases s.len(),
{
    if i == s.len() - 1 {
        assert(s.update(i, m).drop_last() =~= s.drop_last());
    } else {
        assert(s.update(i, m).drop_last() =~= s.drop_last().update(i, m));
        lemma_white_count_update(s.drop_last(), i, m);
    }
}

/// `a` finished before `b` in the finish order `fin`.
pub open spec fn fin_before(fin: Seq<usize>, a: usize, b: usize) -> bool {
    exists|x: int, y: int| 0 <= x < y < fin.len() && fin[x] == a && fin[y] == b
}

/// `t` occurs in `s` before position `x`.
pub open spec fn id_before(s: Seq<TypeId>, x: int, t: TypeId) -> bool {
    exists|y: int| 0 <= y < x && s[y] == t
}

/// Index `t` occurs in `q` before position `x`.
pub open spec fn placed_before(q: Seq<usize>, x: int, t: int) -> bool {
    exists|y: int| 0 <= y < x && q[y] as int == t
}

/// A duplicate-free sequence holding every index below `n` has at least `n` elements.
proof fn lemma_queue_covers(s: Seq<usize>, n: nat)
    requires
        n <= usize::MAX,
        forall|v: usize| v < n ==> s.contains(v),
    ensures
        s.len() >= n,
{
    let t = s.map_values(|x: usize| x as int);
    lemma_int_range(0, n as int);
    assert forall|v: int| set_int_range(0, n as int).contains(v) implies t.to_set().contains(v) by {
        assert(s.contains(v as usize));
        let x = choose|x: int| 0 <= x < s.len() && s[x] == v as usize;
        assert(t[x] == v);
    }
    t.lemma_cardinality_of_set();
    lemma_len_subset(set_int_range(0, n as int), t.to_set());
}

impl DependencyGraph {
    /// Number of the first `m` dependencies of entry `i` that target entry `u`.
    pub open spec fn dcount(self, i: int, u: int, m: int) -> nat
        decreases m,
    {
        if m <= 0 {
            0
        } else {
            self.dcount(i, u, m - 1) + (if self.tgt(i, m - 1) == u { 1nat } else { 0nat })
        }
    }

    /// Number of the first `m` dependencies of entry `i` whose target is not in `done`.
    pub open spec fn pending(self, i: int, done: Set<int>, m: int) -> nat
        decreases m,
    {
        if m <= 0 {
            0
        } else {
            self.pending(i, done, m - 1) + (if done.contains(self.tgt(i, m - 1)) {
                0nat
            } else {
                1nat
            })
        }
    }


    /// Stack entries are registered indices, each depending on the next.
    pub open spec fn dfs_inv_path(self, stack: Seq<usize>) -> bool {
        &&& forall|x: int| 0 <= x < stack.len() ==> #[trigger] stack[x] < self@.len()
        &&& forall|x: int|
            0 <= x < stack.len() - 1 ==> self.depends_on(#[trigger] stack[x] as int, stack[x + 1] as int)
    }

    /// State of the depth-first cycle search: gray nodes form the current
    /// dependency path (`stack`), black nodes are finished in `fin` after
    /// every module they depend on.
    pub open spec fn dfs_inv(
        self,
        visited: Seq<u8>,
        stack: Seq<usize>,
        pos: Seq<usize>,
        fin: Seq<usize>,
    ) -> bool {
        let n = self@.len();
        &&& n <= usize::MAX
        &&& visited.len() == n
        &&& pos.len() == n
        &&& forall|v: int| 0 <= v < n ==> #[trigger] visited[v] <= 2
        &&& stack.no_duplicates()
        &&& forall|x: int|
            0 <= x < stack.len() ==> #[trigger] stack[x] < n && pos[stack[x] as int] == x
                && visited[stack[x] as int] == 1
        &&& forall|v: int| 0 <= v < n && #[trigger] visited[v] == 1 ==> stack.contains(v as usize)
        &&& forall|x: int|
            0 <= x < stack.len() - 1 ==> self.depends_on(#[trigger] stack[x] as int, stack[x + 1] as int)
        &&& fin.no_duplicates()
        &&& forall|x: int| 0 <= x < fin.len() ==> #[trigger] fin[x] < n && visited[fin[x] as int] == 2
        &&& forall|v: int| 0 <= v < n && #[trigger] visited[v] == 2 ==> fin.contains(v as usize)
        &&& forall|b: int, j: int|
            0 <= b < n && visited[b] == 2 && #[trigger] self.depends_on(b, j) ==> visited[j] == 2
                && fin_before(fin, j as usize, b as usize)
    }


    proof fn lemma_dfs_enter(
        self,
        vis0: Seq<u8>,
        stack0: Seq<usize>,
        pos0: Seq<usize>,
        fin: Seq<usize>,
        node: usize,
        sl: usize,
    )
        requires
            self.dfs_inv(vis0, stack0, pos0, fin),
            sl == stack0.len(),
            node < self@.len(),
            vis0[node as int] == 0,
            stack0.len() > 0 ==> self.depends_on(stack0.last() as int, node as int),
        ensures
            self.dfs_inv(
                vis0.update(node as int, 1),
                stack0.push(node),
                pos0.update(node as int, sl),
                fin,
            ),
    {
        let n = self@.len();
        let visited = vis0.update(node as int, 1);
        let stack = stack0.push(node);
        let pos = pos0.update(node as int, sl);
        assert(!stack0.contains(node)) by {
            if stack0.contains(node) {
                let x = choose|x: int| 0 <= x < stack0.len() && stack0[x] == node;
                assert(vis0[stack0[x] as int] == 1);
            }
        }
        assert(!fin.contains(node)) by {
            if fin.contains(node) {
                let x = choose|x: int| 0 <= x < fin.len() && fin[x] == node;
                assert(vis0[fin[x] as int] == 2);
            }
        }
        assert forall|x: int| 0 <= x < stack.len() implies #[trigger] stack[x] < n && pos[stack[x] as int] == x
            && visited[stack[x] as int] == 1 by {
            if x < stack0.len() {
                assert(stack[x] == stack0[x]);
                assert(stack0[x] != node);
            }
        }
        assert forall|v: int| 0 <= v < n && #[trigger] visited[v] == 1 implies stack.contains(v as usize) by {
            if v != node as int {
                assert(vis0[v] == 1);
                assert(stack0.contains(v as usize));
                let x = choose|x: int| 0 <= x < stack0.len() && stack0[x] == v as usize;
                assert(stack[x] == v as usize);
            } else {
                assert(stack[stack0.len() as int] == node);
            }
        }
        assert forall|x: int| 0 <= x < fin.len() implies #[trigger] fin[x] < n && visited[fin[x] as int] == 2 by {
            assert(fin[x] != node);
        }
        assert forall|v: int| 0 <= v < n && #[trigger] visited[v] == 2 implies fin.contains(v as usize) by {
            assert(vis0[v] == 2);
        }
        assert forall|b: int, j: int|
            0 <= b < n && visited[b] == 2 && #[trigger] self.depends_on(b, j) implies visited[j] == 2
                && fin_before(fin, j as usize, b as usize) by {
            assert(vis0[b] == 2);
            assert(vis0[j] == 2);
        }
        assert forall|x: int| 0 <= x < stack.len() - 1 implies self.depends_on(#[trigger] stack[x] as int, stack[x + 1] as int) by {
            if x < stack0.len() - 1 {
                assert(stack[x] == stack0[x] && stack[x + 1] == stack0[x + 1]);
            } else {
                assert(stack[x] == stack0.last());
            }
        }
    }

    proof fn lemma_dfs_finish(
        self,
        vis2: Seq<u8>,
        stack0: Seq<usize>,
        pos: Seq<usize>,
        fin2: Seq<usize>,
        node: usize,
    )
        requires
            self.wf(),
            !self.has_missing(),
            self.dfs_inv(vis2, stack0.push(node), pos, fin2),
            node < self@.len(),
            vis2[node as int] == 1,
            forall|k2: int|
                0 <= k2 < self.deps(node as int).len() ==> #[trigger] vis2[self.tgt(node as int, k2)] == 2,
        ensures
            self.dfs_inv(vis2.update(node as int, 2), stack0, pos, fin2.push(node)),
    {
        let n = self@.len();
        let visited = vis2.update(node as int, 2);
        let fin = fin2.push(node);
        let stack = stack0;
        let sp = stack0.push(node);
        assert(!fin2.contains(node)) by {
            if fin2.contains(node) {
                let x = choose|x: int| 0 <= x < fin2.len() && fin2[x] == node;
                assert(vis2[fin2[x] as int] == 2);
            }
        }
        assert(sp.no_duplicates());
        assert forall|x: int| 0 <= x < stack.len() implies #[trigger] stack[x] < n && pos[stack[x] as int] == x
            && visited[stack[x] as int] == 1 by {
            assert(sp[x] == stack0[x]);
            assert(sp[x] != sp[stack0.len() as int]);
        }
        assert forall|v: int| 0 <= v < n && #[trigger] visited[v] == 1 implies stack.contains(v as usize) by {
            assert(v != node as int);
            assert(vis2[v] == 1);
            assert(sp.contains(v as usize));
            let x = choose|x: int| 0 <= x < sp.len() && sp[x] == v as usize;
            assert(v as usize != node);
            assert(x < stack0.len());
            assert(stack0[x] == v as usize);
        }
        assert forall|x: int| 0 <= x < stack.len() - 1 implies self.depends_on(#[trigger] stack[x] as int, stack[x + 1] as int) by {
            assert(sp[x] == stack0[x] && sp[x + 1] == stack0[x + 1]);
        }
        assert forall|x: int| 0 <= x < fin.len() implies #[trigger] fin[x] < n && visited[fin[x] as int] == 2 by {
            if x < fin2.len() {
                assert(fin[x] == fin2[x]);
            }
        }
        assert forall|v: int| 0 <= v < n && #[trigger] visited[v] == 2 implies fin.contains(v as usize) by {
            if v == node as int {
                assert(fin[fin2.len() as int] == node);
            } else {
                assert(vis2[v] == 2);
                assert(fin2.contains(v as usize));
                let x = choose|x: int| 0 <= x < fin2.len() && fin2[x] == v as usize;
                assert(fin[x] == fin2[x]);
            }
        }
        assert forall|b: int, j: int|
            0 <= b < n && visited[b] == 2 && #[trigger] self.depends_on(b, j) implies visited[j] == 2
                && fin_before(fin, j as usize, b as usize) by {
            if b == node as int {
                let kk = choose|kk: int| 0 <= kk < self.deps(b).len() && #[trigger] self.deps(b)[kk].1 == self.id(j);
                self.lemma_tgt(b, kk);
                self.lemma_index_of_id(self.deps(b)[kk].1, j);
                assert(vis2[self.tgt(node as int, kk)] == 2);
                assert(j != node as int);
                assert(fin2.contains(j as usize));
                let x = choose|x: int| 0 <= x < fin2.len() && fin2[x] == j as usize;
                assert(fin[x] == j as usize);
                assert(fin[fin2.len() as int] == node);
            } else {
                assert(vis2[b] == 2);
                assert(vis2[j] == 2);
                let (x, y) = choose|x: int, y: int| 0 <= x < y < fin2.len() && fin2[x] == j as usize && fin2[y] == b as usize;
                assert(fin[x] == fin2[x] && fin[y] == fin2[y]);
                if j == node as int {
                    assert(vis2[node as int] == 1);
                }
            }
        }
        assert forall|a: int, b: int| 0 <= a < fin.len() && 0 <= b < fin.len() && a != b implies fin[a] != fin[b] by {
            if a < fin2.len() && b < fin2.len() {
                assert(fin[a] == fin2[a] && fin[b] == fin2[b]);
            } else if a < fin2.len() {
                assert(fin[a] == fin2[a]);
                assert(fin2.contains(fin2[a]));
            } else if b < fin2.len() {
                assert(fin[b] == fin2[b]);
                assert(fin2.contains(fin2[b]));
            }
        }
    }

    /// Every dependency of the module at position `x` of `q` is placed earlier in `q`.
    pub open spec fn deps_before(self, q: Seq<usize>, x: int) -> bool {
        forall|k: int|
            0 <= k < self.deps(q[x] as int).len() ==> placed_before(
                q,
                x,
                #[trigger] self.tgt(q[x] as int, k),
            )
    }

    proof fn lemma_deps_before_prefix(self, q0: Seq<usize>, q1: Seq<usize>, x: int)
        requires
            0 <= x < q0.len() <= q1.len(),
            forall|y: int| 0 <= y < q0.len() ==> q1[y] == q0[y],
            self.deps_before(q0, x),
        ensures
            self.deps_before(q1, x),
    {
        assert forall|k: int| 0 <= k < self.deps(q1[x] as int).len() implies placed_before(q1, x, #[trigger] self.tgt(q1[x] as int, k)) by {
            assert(q1[x] == q0[x]);
            assert(self.tgt(q0[x] as int, k) == self.tgt(q1[x] as int, k));
            let y = choose|y: int| 0 <= y < x && q0[y] as int == #[trigger] self.tgt(q0[x] as int, k);
            assert(q1[y] == q0[y]);
        }
        assert(self.deps_before(q1, x));
    }

    pub(crate) proof fn lemma_index_of_id(self, t: TypeId, j: int)
        requires
            self.wf(),
            0 <= j < self@.len(),
            self@[j].type_id == t,
        ensures
            self.index_of_id(t) == j,
    {
        let c = self.index_of_id(t);
        assert(0 <= c < self@.len() && self@[c].type_id == t);
        if c != j {
            assert(self@[c].type_id != self@[j].type_id);
        }
    }

    proof fn lemma_tgt(self, i: int, k: int)
        requires
            0 <= i < self@.len(),
            0 <= k < self.deps(i).len(),
            !self.has_missing(),
        ensures
            0 <= self.tgt(i, k) < self@.len(),
            self.id(self.tgt(i, k)) == self.deps(i)[k].1,
    {
        assert(!self.missing_at(i, k));
    }

    proof fn lemma_pending_empty(self, i: int, m: int)
        requires
            m >= 0,
        ensures
            self.pending(i, Set::empty(), m) == m,
        decreases m,
    {
        if m > 0 {
            self.lemma_pending_empty(i, m - 1);
        }
    }

    proof fn lemma_pending_insert(self, i: int, done: Set<int>, u: int, m: int)
        requires
            !done.contains(u),
        ensures
            self.pending(i, done, m) == self.pending(i, done.insert(u), m) + self.dcount(i, u, m),
        decreases m,
    {
        if m > 0 {
            self.lemma_pending_insert(i, done, u, m - 1);
        }
    }

    proof fn lemma_pending_zero(self, i: int, done: Set<int>, m: int, k: int)
        requires
            self.pending(i, done, m) == 0,
            0 <= k < m,
        ensures
            done.contains(self.tgt(i, k)),
        decreases m,
    {
        if k < m - 1 {
            self.lemma_pending_zero(i, done, m - 1, k);
        }
    }

    proof fn lemma_pending_pos(self, i: int, done: Set<int>, m: int) -> (k: int)
        requires
            self.pending(i, done, m) > 0,
        ensures
            0 <= k < m,
            !done.contains(self.tgt(i, k)),
        decreases m,
    {
        if done.contains(self.tgt(i, m - 1)) {
            self.lemma_pending_pos(i, done, m - 1)
        } else {
            m - 1
        }
    }

    /// Every position of `s` that holds a module of the stuck set lies at or
    /// beyond `m`, when `s` is a topological order.
    proof fn lemma_rank(self, in_r: spec_fn(int) -> bool, s: Seq<TypeId>, m: nat)
        requires
            self.wf(),
            !self.has_missing(),
            self.is_topo_order(s),
            forall|v: int|
                0 <= v < self@.len() && #[trigger] in_r(v) ==> exists|k: int|
                    0 <= k < self.deps(v).len() && in_r(#[trigger] self.tgt(v, k)),
        ensures
            forall|v: int, x: int|
                0 <= v < self@.len() && #[trigger] in_r(v) && 0 <= x < s.len() && #[trigger] s[x]
                    == self.id(v) ==> x >= m,
        decreases m,
    {
        if m > 0 {
            self.lemma_rank(in_r, s, (m - 1) as nat);
            assert forall|v: int, x: int|
                0 <= v < self@.len() && #[trigger] in_r(v) && 0 <= x < s.len() && #[trigger] s[x]
                    == self.id(v) implies x >= m by {
                if x == m - 1 {
                    let k = choose|k: int| 0 <= k < self.deps(v).len() && in_r(#[trigger] self.tgt(v, k));
                    self.lemma_tgt(v, k);
                    let w = self.tgt(v, k);
                    let y = choose|y: int| 0 <= y < x && s[y] == self.deps(v)[k].1;
                    assert(s[y] == self.id(w));
                }
            }
        }
    }

    /// A nonempty set of modules in which every module has a dependency
    /// inside the set rules out any topological order.
    proof fn lemma_stuck_no_topo(self, in_r: spec_fn(int) -> bool, v0: int)
        requires
            self.wf(),
            !self.has_missing(),
            0 <= v0 < self@.len(),
            in_r(v0),
            forall|v: int|
                0 <= v < self@.len() && #[trigger] in_r(v) ==> exists|k: int|
                    0 <= k < self.deps(v).len() && in_r(#[trigger] self.tgt(v, k)),
        ensures
            !self.has_topo_order(),
    {
        if self.has_topo_order() {
            let s = choose|s: Seq<TypeId>| self.is_topo_order(s);
            self.lemma_rank(in_r, s, s.len());
            assert(s.contains(self.id(v0)));
            let x = choose|x: int| 0 <= x < s.len() && s[x] == self.id(v0);
            assert(in_r(v0));
        }
    }
}

impl DependencyGraph {
    /// `TypeId` of the `i`-th registered entry.
    pub open spec fn id(self, i: int) -> TypeId {
        self@[i].type_id
    }

    /// Declared dependencies of the `i`-th registered entry.
    pub open spec fn deps(self, i: int) -> Seq<(&'static str, TypeId)> {
        self@[i].dependencies@
    }

    /// Some registered entry has `TypeId` `t`.
    pub open spec fn contains_id(self, t: TypeId) -> bool {
        exists|j: int| 0 <= j < self@.len() && #[trigger] self@[j].type_id == t
    }

    /// Registered `TypeId`s are pairwise distinct.
    pub open spec fn wf(self) -> bool {
        forall|a: int, b: int|
            0 <= a < self@.len() && 0 <= b < self@.len() && a != b ==> #[trigger] self@[a].type_id
                != #[trigger] self@[b].type_id
    }

    /// The `k`-th dependency of entry `i` names an unregistered module.
    pub open spec fn missing_at(self, i: int, k: int) -> bool {
        &&& 0 <= i < self@.len()
        &&& 0 <= k < self.deps(i).len()
        &&& !self.contains_id(self.deps(i)[k].1)
    }

    /// Some registered module depends on an unregistered module.
    pub open spec fn has_missing(self) -> bool {
        exists|i: int, k: int| #[trigger] self.missing_at(i, k)
    }

    /// `(i, k)` is the first missing dependency in registration order
    /// (entries in order, each entry's dependencies in declaration order).
    pub open spec fn first_missing_at(self, i: int, k: int) -> bool {
        &&& self.missing_at(i, k)
        &&& forall|i2: int, k2: int|
            (i2 < i || (i2 == i && k2 < k)) ==> !#[trigger] self.missing_at(i2, k2)
    }

    /// Entry `i` declares a dependency on entry `j`.
    pub open spec fn depends_on(self, i: int, j: int) -> bool {
        &&& 0 <= i < self@.len()
        &&& 0 <= j < self@.len()
        &&& exists|k: int| 0 <= k < self.deps(i).len() && #[trigger] self.deps(i)[k].1 == self.id(j)
    }

    /// `s` lists every registered `TypeId` exactly once, each after all of
    /// its dependencies.
    pub open spec fn is_topo_order(self, s: Seq<TypeId>) -> bool {
        &&& s.no_duplicates()
        &&& forall|x: int| 0 <= x < s.len() ==> self.contains_id(#[trigger] s[x])
        &&& forall|i: int| 0 <= i < self@.len() ==> s.contains(#[trigger] self.id(i))
        &&& forall|x: int, i: int, k: int|
            #![trigger s[x], self.deps(i)[k]]
            0 <= x < s.len() && 0 <= i < self@.len() && s[x] == self.id(i) && 0 <= k
                < self.deps(i).len() ==> id_before(s, x, self.deps(i)[k].1)
    }

    /// Some order of the registered modules puts every dependency first.
    pub open spec fn has_topo_order(self) -> bool {
        exists|s: Seq<TypeId>| self.is_topo_order(s)
    }

    /// `p` is a closed walk of entry indices along dependency edges.
    pub open spec fn is_cycle_path(self, p: Seq<int>) -> bool {
        &&& p.len() >= 2
        &&& p[0] == p.last()
        &&& forall|x: int| 0 <= x < p.len() - 1 ==> self.depends_on(#[trigger] p[x], p[x + 1])
    }

    /// `c` is the list of names along some dependency cycle.
    pub open spec fn names_cycle(self, c: Seq<&'static str>) -> bool {
        exists|p: Seq<int>|
            #![trigger self.is_cycle_path(p)]
            self.is_cycle_path(p) && p.len() == c.len() && forall|x: int|
                0 <= x < c.len() ==> c[x] == #[trigger] self@[p[x]].name
    }

    /// Index of the registered entry whose `TypeId` is `t` (meaningful when
    /// `contains_id(t)`).
    pub open spec fn index_of_id(self, t: TypeId) -> int {
        choose|j: int| 0 <= j < self@.len() && self@[j].type_id == t
    }

    /// Entry index targeted by the `k`-th dependency of entry `i`.
    pub open spec fn tgt(self, i: int, k: int) -> int {
        self.index_of_id(self.deps(i)[k].1)
    }

    /// Create an empty graph.
    pub fn new() -> (g: Self)
        ensures
            g@ == Seq::<ModuleEntry>::empty(),
            g.wf(),
    {
        DependencyGraph { entries: Vec::new() }
    }

    /// Position of the entry registered under `type_id`.
    pub(crate) fn index_of(&self, type_id: &TypeId) -> (r: Option<usize>)
        requires
            self.wf(),
        ensures
            match r {
                Some(j) => j < self@.len() && self@[j as int].type_id == *type_id,
                None => !self.contains_id(*type_id),
            },
    {
        let mut j: usize = 0;
        while j < self.entries.len()
            invariant
                j <= self.entries@.len(),
                forall|a: int| 0 <= a < j ==> self.entries@[a].type_id != *type_id,
            decreases self.entries@.len() - j,
        {
            if type_id_eq(&self.entries[j].type_id, type_id) {
                return Some(j);
            }
            j += 1;
        }
        None
    }

    /// Add a module to the graph.
    ///
    /// # Errors
    ///
    /// Returns the name of the **already registered** module if the given
    /// entry's `TypeId` is a duplicate (the conflicting party), not the new
    /// entry's name.
    pub fn add(&mut self, entry: ModuleEntry) -> (r: Result<(), &'static str>)
        requires
            old(self).wf(),
        ensures
            final(self).wf(),
            match r {
                Ok(()) => !old(self).contains_id(entry.type_id) && final(self)@ == old(self)@.push(
                    entry,
                ),
                Err(name) => final(self)@ == old(self)@ && exists|j: int|
                    0 <= j < old(self)@.len() && old(self)@[j].type_id == entry.type_id
                        && old(self)@[j].name == name,
            },
    {
        match self.index_of(&entry.type_id) {
            Some(existing_idx) => Err(self.entries[existing_idx].name),
            None => {
                let ghost before = self.entries@;
                let ghost old_g = *self;
                assert(old_g.wf());
                assert(old_g@ == before);
                self.entries.push(entry);
                proof {
                    assert(self@ == before.push(entry));
                    assert forall|b: int| 0 <= b < before.len() implies before[b].type_id
                        != entry.type_id by {
                        if before[b].type_id == entry.type_id {
                            assert(old_g@[b].type_id == entry.type_id);
                            assert(old_g.contains_id(entry.type_id));
                        }
                    }
                    assert forall|a: int, b: int|
                        0 <= a < self@.len() && 0 <= b < self@.len() && a != b implies #[trigger] self@[a].type_id
                        != #[trigger] self@[b].type_id by {
                        if a == before.len() as int {
                            assert(self@[b] == before[b]);
                        } else if b == before.len() as int {
                            assert(self@[a] == before[a]);
                        } else {
                            assert(self@[a] == before[a]);
                            assert(self@[b] == before[b]);
                            assert(old_g@[a].type_id != old_g@[b].type_id);
                        }
                    }
                }
                Ok(())
            },
        }
    }


    /// Validate the graph: check for missing dependencies and cycles.
    /// Returns the topologically sorted `TypeId`s on success.
    ///
    /// # Errors
    ///
    /// Returns `GraphError::DependencyMissing` for the first (in registration
    /// order) dependency on an unregistered module.
    /// Returns `GraphError::CycleDetected` if a dependency cycle is found.
    pub fn validate(&self) -> (r: Result<Vec<TypeId>, GraphError>)
        requires
            self.wf(),
        ensures
            self.has_missing() <==> r matches Err(GraphError::DependencyMissing { .. }),
            r matches Err(GraphError::DependencyMissing { module, missing }) ==> exists|i: int, k: int|
                #![trigger self.missing_at(i, k)]
                self.first_missing_at(i, k) && module == self@[i].name && missing == self.deps(
                    i,
                )[k].0,
            r matches Ok(s) ==> self.is_topo_order(s@),
            r matches Err(GraphError::CycleDetected { cycle }) ==> self.names_cycle(cycle@),
            !self.has_missing() ==> (r is Ok <==> self.has_topo_order()),
            !self.has_missing() && (exists|p: Seq<int>| #[trigger] self.is_cycle_path(p)) ==> r matches Err(
                GraphError::CycleDetected { .. },
            ),
    {
        let n = self.entries.len();
        // Check for missing dependencies
        let mut i: usize = 0;
        while i < n
            invariant
                n == self@.len(),
                self.wf(),
                i <= n,
                forall|i2: int, k2: int| 0 <= i2 < i ==> !#[trigger] self.missing_at(i2, k2),
            decreases n - i,
        {
            let deps = &self.entries[i].dependencies;
            let mut k: usize = 0;
            while k < deps.len()
                invariant
                    n == self@.len(),
                    self.wf(),
                    i < n,
                    deps@ == self.deps(i as int),
                    k <= deps@.len(),
                    forall|i2: int, k2: int| 0 <= i2 < i ==> !#[trigger] self.missing_at(i2, k2),
                    forall|k2: int| 0 <= k2 < k ==> !#[trigger] self.missing_at(i as int, k2),
                decreases deps@.len() - k,
            {
                if self.index_of(&deps[k].1).is_none() {
                    proof {
                        assert(self.missing_at(i as int, k as int));
                        assert(self.first_missing_at(i as int, k as int));
                    }
                    return Err(
                        GraphError::DependencyMissing {
                            module: self.entries[i].name,
                            missing: deps[k].0,
                        },
                    );
                }
                k += 1;
            }
            proof {
                assert forall|i2: int, k2: int| 0 <= i2 < i + 1 implies !#[trigger] self.missing_at(
                    i2,
                    k2,
                ) by {
                    if i2 == i && self.missing_at(i2, k2) {
                        assert(0 <= k2 < k);
                    }
                }
            }
            i += 1;
        }
        proof {
            assert forall|i2: int, k2: int| !#[trigger] self.missing_at(i2, k2) by {
                if 0 <= i2 < n {
                } else {
                }
            }
            assert(!self.has_missing());
        }

        // Kahn's algorithm for topological sort + cycle detection
        let mut in_degree: Vec<usize> = Vec::new();
        let mut adj: Vec<Vec<usize>> = Vec::new();
        let mut z: usize = 0;
        while z < n
            invariant
                z <= n,
                in_degree@.len() == z,
                adj@.len() == z,
                forall|v: int| 0 <= v < z ==> in_degree@[v] == 0,
                forall|u: int| 0 <= u < z ==> adj@[u]@ == Seq::<usize>::empty(),
            decreases n - z,
        {
            in_degree.push(0);
            adj.push(Vec::new());
            z += 1;
        }

        let mut i: usize = 0;
        while i < n
            invariant
                n == self@.len(),
                self.wf(),
                !self.has_missing(),
                i <= n,
                in_degree@.len() == n,
                adj@.len() == n,
                forall|v: int| 0 <= v < n ==> in_degree@[v] == (if v < i { self.deps(v).len() } else { 0 }),
                forall|u: int, p: int| 0 <= u < n && 0 <= p < adj@[u]@.len() ==> #[trigger] adj@[u]@[p] < n,
                forall|u: int, v: int|
                    0 <= u < n && 0 <= v < n ==> #[trigger] occ(adj@[u]@, v as usize) == (if v < i {
                        self.dcount(v, u, self.deps(v).len() as int)
                    } else {
                        0
                    }),
            decreases n - i,
        {
            let deps = &self.entries[i].dependencies;
            let mut k: usize = 0;
            while k < deps.len()
                invariant
                    n == self@.len(),
                    self.wf(),
                    !self.has_missing(),
                    i < n,
                    deps@ == self.deps(i as int),
                    k <= deps@.len(),
                    in_degree@.len() == n,
                    adj@.len() == n,
                    forall|v: int|
                        0 <= v < n ==> in_degree@[v] == (if v < i {
                            self.deps(v).len() as int
                        } else if v == i {
                            k as int
                        } else {
                            0
                        }),
                    forall|u: int, p: int| 0 <= u < n && 0 <= p < adj@[u]@.len() ==> #[trigger] adj@[u]@[p] < n,
                    forall|u: int, v: int|
                        0 <= u < n && 0 <= v < n ==> #[trigger] occ(adj@[u]@, v as usize) == (if v < i {
                            self.dcount(v, u, self.deps(v).len() as int)
                        } else if v == i {
                            self.dcount(v, u, k as int)
                        } else {
                            0
                        }),
                decreases deps@.len() - k,
            {
                proof {
                    self.lemma_tgt(i as int, k as int);
                }
                let found = self.index_of(&deps[k].1);
                proof {
                    assert(!self.missing_at(i as int, k as int));
                }
                let dep_idx = found.unwrap();
                proof {
                    self.lemma_index_of_id(deps@[k as int].1, dep_idx as int);
                    assert(self.tgt(i as int, k as int) == dep_idx as int);
                }
                let ghost old_adj = adj@;
                adj[dep_idx].push(i);
                let cur = in_degree[i];
                in_degree.set(i, cur + 1);
                proof {
                    assert forall|u: int, v: int|
                        0 <= u < n && 0 <= v < n implies #[trigger] occ(adj@[u]@, v as usize) == (if v < i {
                            self.dcount(v, u, self.deps(v).len() as int)
                        } else if v == i {
                            self.dcount(v, u, k + 1)
                        } else {
                            0
                        }) by {
                        if u == dep_idx as int {
                            lemma_occ_push(old_adj[u]@, i, v as usize);
                        } else {
                            assert(adj@[u] == old_adj[u]);
                        }
                    }
                    assert forall|u: int, p: int| 0 <= u < n && 0 <= p < adj@[u]@.len() implies #[trigger] adj@[u]@[p] < n by {
                        if u == dep_idx as int {
                            if p < old_adj[u]@.len() {
                                assert(adj@[u]@[p] == old_adj[u]@[p]);
                            }
                        } else {
                            assert(adj@[u] == old_adj[u]);
                        }
                    }
                }
                k += 1;
            }
            i += 1;
        }

        let mut queue: VecDeque<usize> = VecDeque::new();
        let ghost mut hist: Seq<usize> = Seq::empty();
        let mut v: usize = 0;
        while v < n
            invariant
                v <= n,
                in_degree@.len() == n,
                hist.no_duplicates(),
                forall|x: int| 0 <= x < hist.len() ==> hist[x] < v,
                forall|w: usize| w < v ==> (hist.contains(w) <==> in_degree@[w as int] == 0),
                queue@ == hist,
            decreases n - v,
        {
            if in_degree[v] == 0 {
                proof {
                    assert(!hist.contains(v));
                }
                queue.push_back(v);
                proof {
                    hist = hist.push(v);
                }
            }
            v += 1;
        }

        let ghost mut done: Set<int> = Set::empty();
        proof {
            assert forall|w: int| 0 <= w < n implies in_degree@[w] == self.pending(
                w,
                done,
                self.deps(w).len() as int,
            ) by {
                self.lemma_pending_empty(w, self.deps(w).len() as int);
            }
        }
        let mut sorted: Vec<TypeId> = Vec::new();
        let mut head: usize = 0;
        proof {
            lemma_pigeonhole(hist, n as nat);
        }
        while queue.len() > 0
            invariant
                queue@ == hist.skip(head as int),
                n == self@.len(),
                self.wf(),
                !self.has_missing(),
                in_degree@.len() == n,
                adj@.len() == n,
                forall|u: int, p: int| 0 <= u < n && 0 <= p < adj@[u]@.len() ==> #[trigger] adj@[u]@[p] < n,
                forall|u: int, v: int|
                    0 <= u < n && 0 <= v < n ==> #[trigger] occ(adj@[u]@, v as usize) == self.dcount(
                        v,
                        u,
                        self.deps(v).len() as int,
                    ),
                head <= hist.len() <= n,
                hist.no_duplicates(),
                forall|x: int| 0 <= x < hist.len() ==> #[trigger] hist[x] < n,
                forall|w: int| 0 <= w < n ==> #[trigger] in_degree@[w] == self.pending(w, done, self.deps(w).len() as int),
                forall|w: usize| w < n ==> (hist.contains(w) <==> #[trigger] in_degree@[w as int] == 0),
                forall|w: int| #[trigger] done.contains(w) <==> exists|y: int| 0 <= y < head && hist[y] == w,
                sorted@.len() == head,
                forall|x: int| 0 <= x < head ==> #[trigger] sorted@[x] == self.id(hist[x] as int),
                forall|x: int| 0 <= x < head ==> #[trigger] self.deps_before(hist, x),
            decreases n - head,
        {
            let node = queue.pop_front().unwrap();
            proof {
                assert(hist.contains(node));
                assert(in_degree@[node as int] == 0);
                assert(!done.contains(node as int)) by {
                    if done.contains(node as int) {
                        let y = choose|y: int| 0 <= y < head && hist[y] == node as int;
                        assert(hist[y] == hist[head as int]);
                    }
                }
                assert forall|k: int| 0 <= k < self.deps(hist[head as int] as int).len() implies placed_before(hist, head as int, #[trigger] self.tgt(hist[head as int] as int, k)) by {
                    self.lemma_tgt(node as int, k);
                    self.lemma_pending_zero(node as int, done, self.deps(node as int).len() as int, k);
                }
                assert(self.deps_before(hist, head as int));
            }
            let ghost old_done = done;
            let ghost h0 = head as int;
            let ghost q0 = hist;
            proof {
                done = done.insert(node as int);
                assert(forall|w: int| #[trigger] old_done.contains(w) <==> exists|y: int| 0 <= y < h0 && q0[y] == w);
                assert(forall|x: int| 0 <= x < h0 ==> #[trigger] self.deps_before(q0, x));
                assert(forall|x: int| 0 <= x < h0 ==> #[trigger] sorted@[x] == self.id(q0[x] as int));
            }
            head += 1;
            sorted.push(self.entries[node].type_id);
            let row = &adj[node];
            let mut p: usize = 0;
            while p < row.len()
                invariant
                    n == self@.len(),
                    self.wf(),
                    !self.has_missing(),
                    node < n,
                    row@ == adj@[node as int]@,
                    p <= row@.len(),
                    forall|q: int| 0 <= q < row@.len() ==> #[trigger] row@[q] < n,
                    forall|w: int| 0 <= w < n ==> #[trigger] occ(row@, w as usize) == self.dcount(
                        w,
                        node as int,
                        self.deps(w).len() as int,
                    ),
                    in_degree@.len() == n,
                    !old_done.contains(node as int),
                    done == old_done.insert(node as int),
                    forall|w: int| 0 <= w < n ==> #[trigger] in_degree@[w] + occ(row@.take(p as int), w as usize)
                        == self.pending(w, old_done, self.deps(w).len() as int),
                    head <= hist.len() <= n,
                    hist.no_duplicates(),
                    forall|x: int| 0 <= x < hist.len() ==> #[trigger] hist[x] < n,
                    forall|w: usize| w < n ==> (hist.contains(w) <==> #[trigger] in_degree@[w as int] == 0),
                    q0.len() <= hist.len(),
                    queue@ == hist.skip(head as int),
                    forall|x: int| 0 <= x < q0.len() ==> #[trigger] hist[x] == q0[x],
                decreases row@.len() - p,
            {
                let nb = row[p];
                proof {
                    lemma_occ_take(row@, p as int, nb);
                    self.lemma_pending_insert(nb as int, old_done, node as int, self.deps(nb as int).len() as int);
                    assert(in_degree@[nb as int] > 0);
                }
                let d = in_degree[nb];
                let ghost old_deg = in_degree@;
                in_degree.set(nb, d - 1);
                proof {
                    assert forall|w: int| 0 <= w < n implies #[trigger] in_degree@[w] + occ(row@.take(p + 1), w as usize)
                        == self.pending(w, old_done, self.deps(w).len() as int) by {
                        lemma_occ_take(row@, p as int, w as usize);
                    }
                }
                if d - 1 == 0 {
                    proof {
                        assert(!hist.contains(nb));
                    }
                    queue.push_back(nb);
                    proof {
                        hist = hist.push(nb);
                    }
                    proof {
                        lemma_pigeonhole(hist, n as nat);
                    }
                }
                proof {
                    assert forall|w: usize| w < n implies (hist.contains(w) <==> #[trigger] in_degree@[w as int] == 0) by {
                        if w != nb {
                            assert(in_degree@[w as int] == old_deg[w as int]);
                        }
                    }
                }
                p += 1;
            }
            proof {
                lemma_occ_full(row@, 0);
                assert(row@.take(p as int) =~= row@);
                assert forall|w: int| 0 <= w < n implies #[trigger] in_degree@[w] == self.pending(
                    w,
                    done,
                    self.deps(w).len() as int,
                ) by {
                    self.lemma_pending_insert(w, old_done, node as int, self.deps(w).len() as int);
                }
                assert forall|w: int| #[trigger] done.contains(w) <==> exists|y: int| 0 <= y < head && hist[y] == w by {
                    if w == node as int {
                        assert(hist[h0] == q0[h0]);
                    }
                    if old_done.contains(w) {
                        let y = choose|y: int| 0 <= y < h0 && q0[y] == w;
                        assert(hist[y] == q0[y]);
                    }
                    if exists|y: int| 0 <= y < head && hist[y] == w {
                        let y = choose|y: int| 0 <= y < head && hist[y] == w;
                        assert(hist[y] == q0[y]);
                        if y < h0 {
                            assert(old_done.contains(w));
                        }
                    }
                }
                assert forall|x: int| 0 <= x < head implies #[trigger] sorted@[x] == self.id(hist[x] as int) by {
                    assert(hist[x] == q0[x]);
                }
                assert(self.deps_before(q0, h0));
                assert forall|x: int| 0 <= x < head implies #[trigger] self.deps_before(hist, x) by {
                    assert(self.deps_before(q0, x));
                    self.lemma_deps_before_prefix(q0, hist, x);
                }
            }
        }

        if sorted.len() != n {
            proof {
                assert(hist.len() < n);
                let in_r = |w: int| 0 <= w < n && !hist.contains(w as usize);
                if forall|w: usize| w < n ==> hist.contains(w) {
                    // every module is queued, so the queue has at least n entries
                    lemma_pigeonhole(hist, n as nat);
                    lemma_queue_covers(hist, n as nat);
                }
                let v0 = choose|w: usize| w < n && !hist.contains(w);
                assert forall|w: int|
                    0 <= w < self@.len() && #[trigger] in_r(w) implies exists|k: int|
                        0 <= k < self.deps(w).len() && in_r(#[trigger] self.tgt(w, k)) by {
                    assert(in_degree@[w] != 0);
                    let k = self.lemma_pending_pos(w, done, self.deps(w).len() as int);
                    self.lemma_tgt(w, k);
                    let t = self.tgt(w, k);
                    if hist.contains(t as usize) {
                        let y = choose|y: int| 0 <= y < hist.len() && hist[y] == t as usize;
                        assert(done.contains(t));
                    }
                }
                self.lemma_stuck_no_topo(in_r, v0 as int);
            }
            // Cycle detected — find the cycle for a useful error message
            let cycle = self.find_cycle();
            return Err(GraphError::CycleDetected { cycle });
        }

        proof {
            lemma_pigeonhole(hist, n as nat);
            let s = sorted@;
            assert forall|a: int, b: int| 0 <= a < s.len() && 0 <= b < s.len() && a != b implies s[a] != s[b] by {
                assert(hist[a] != hist[b]);
                assert(self@[hist[a] as int].type_id != self@[hist[b] as int].type_id);
            }
            assert forall|x: int| 0 <= x < s.len() implies self.contains_id(#[trigger] s[x]) by {
                assert(self@[hist[x] as int].type_id == s[x]);
            }
            assert forall|w: int| 0 <= w < self@.len() implies s.contains(#[trigger] self.id(w)) by {
                assert(hist.contains(w as usize));
                let x = choose|x: int| 0 <= x < hist.len() && hist[x] == w as usize;
                assert(s[x] == self.id(w));
            }
            assert forall|x: int, w: int, k: int|
                #![trigger s[x], self.deps(w)[k]]
                0 <= x < s.len() && 0 <= w < self@.len() && s[x] == self.id(w) && 0 <= k
                    < self.deps(w).len() implies id_before(s, x, self.deps(w)[k].1) by {
                if hist[x] as int != w {
                    assert(self@[hist[x] as int].type_id != self@[w].type_id);
                }
                assert(hist[x] as int == w);
                assert(self.deps(hist[x] as int)[k] == self.deps(w)[k]);
                assert(self.deps_before(hist, x));
                let y = choose|y: int| 0 <= y < x && hist[y] as int == #[trigger] self.tgt(hist[x] as int, k);
                self.lemma_tgt(w, k);
                assert(s[y] == self.id(self.tgt(w, k)));
            }
            assert(s.no_duplicates());
            assert(forall|x: int| 0 <= x < s.len() ==> self.contains_id(#[trigger] s[x]));
            assert(forall|w: int| 0 <= w < self@.len() ==> s.contains(#[trigger] self.id(w)));
            assert(self.is_topo_order(s));
            assert forall|p: Seq<int>| !self.is_cycle_path(p) by {
                if self.is_cycle_path(p) {
                    self.lemma_cycle_path_has_no_topo_order(p);
                }
            }
        }
        Ok(sorted)
    }


    /// Find a cycle in the graph by depth-first search (for error reporting).
    fn find_cycle(&self) -> (r: Vec<&'static str>)
        requires
            self.wf(),
            !self.has_missing(),
        ensures
            self.names_cycle(r@) || self.has_topo_order(),
    {
        let n = self.entries.len();
        let mut visited: Vec<u8> = Vec::new();
        let mut stack_pos: Vec<usize> = Vec::new();
        let mut z: usize = 0;
        while z < n
            invariant
                z <= n,
                visited@.len() == z,
                stack_pos@.len() == z,
                forall|v: int| 0 <= v < z ==> visited@[v] == 0,
            decreases n - z,
        {
            visited.push(0);
            stack_pos.push(0);
            z += 1;
        }
        let mut stack: Vec<usize> = Vec::new();
        let mut cycle_names: Vec<&'static str> = Vec::new();
        let mut fin: Ghost<Seq<usize>> = Ghost(Seq::empty());
        let mut i: usize = 0;
        while i < n
            invariant
                self.wf(),
                !self.has_missing(),
                n == self@.len(),
                i <= n,
                self.dfs_inv(visited@, stack@, stack_pos@, fin@),
                stack@ == Seq::<usize>::empty(),
                cycle_names@ == Seq::<&'static str>::empty(),
                forall|v: int| 0 <= v < i ==> #[trigger] visited@[v] == 2,
            decreases n - i,
        {
            proof {
                if visited@[i as int] == 1 {
                    assert(stack@.contains(i));
                }
            }
            if visited[i] == 0 {
                let ghost vis_before = visited@;
                if cycle_dfs(self, i, &mut visited, &mut stack, &mut stack_pos, &mut cycle_names, &mut fin) {
                    return cycle_names;
                }
                proof {
                    assert forall|v: int| 0 <= v < i implies #[trigger] visited@[v] == 2 by {
                        assert(vis_before[v] == 2);
                    }
                }
            }
            i += 1;
        }
        proof {
            self.lemma_fin_topo(visited@, stack_pos@, fin@);
        }
        let mut unknown: Vec<&'static str> = Vec::new();
        unknown.push("<unknown cycle>");
        unknown
    }

    proof fn lemma_fin_topo(self, visited: Seq<u8>, pos: Seq<usize>, fin: Seq<usize>)
        requires
            self.wf(),
            !self.has_missing(),
            self.dfs_inv(visited, Seq::empty(), pos, fin),
            forall|v: int| 0 <= v < self@.len() ==> #[trigger] visited[v] == 2,
        ensures
            self.has_topo_order(),
    {
        let s = fin.map_values(|v: usize| self.id(v as int));
        assert forall|a: int, b: int| 0 <= a < s.len() && 0 <= b < s.len() && a != b implies s[a] != s[b] by {
            assert(fin[a] != fin[b]);
            assert(fin[a] < self@.len() && fin[b] < self@.len());
            assert(self@[fin[a] as int].type_id != self@[fin[b] as int].type_id);
        }
        assert forall|x: int| 0 <= x < s.len() implies self.contains_id(#[trigger] s[x]) by {
            assert(fin[x] < self@.len());
            assert(self@[fin[x] as int].type_id == s[x]);
        }
        assert forall|w: int| 0 <= w < self@.len() implies s.contains(#[trigger] self.id(w)) by {
            assert(visited[w] == 2);
            assert(fin.contains(w as usize));
            let x = choose|x: int| 0 <= x < fin.len() && fin[x] == w as usize;
            assert(s[x] == self.id(w));
        }
        assert forall|x: int, w: int, k: int|
            #![trigger s[x], self.deps(w)[k]]
            0 <= x < s.len() && 0 <= w < self@.len() && s[x] == self.id(w) && 0 <= k
                < self.deps(w).len() implies id_before(s, x, self.deps(w)[k].1) by {
            assert(fin[x] < self@.len());
            if fin[x] as int != w {
                assert(self@[fin[x] as int].type_id != self@[w].type_id);
            }
            self.lemma_tgt(w, k);
            let j = self.tgt(w, k);
            assert(self.deps(w)[k].1 == self.id(j));
            assert(self.depends_on(w, j));
            assert(visited[w] == 2);
            let (a, c) = choose|a: int, c: int|
                0 <= a < c < fin.len() && fin[a] == j as usize && fin[c] == w as usize;
            assert(fin[c] == fin[x]);
            assert(s[a] == self.id(j));
        }
        assert(s.no_duplicates());
        assert(self.is_topo_order(s));
    }

    /// A closed walk along dependency edges rules out every topological
    /// order: such a graph is reported with a cycle, never sorted.
    pub proof fn lemma_cycle_path_has_no_topo_order(self, p: Seq<int>)
        requires
            self.wf(),
            !self.has_missing(),
            self.is_cycle_path(p),
        ensures
            !self.has_topo_order(),
    {
        let c = Seq::new(p.len(), |x: int| self@[p[x]].name);
        assert(self.names_cycle(c));
        self.lemma_cycle_has_no_topo_order(c);
    }

    /// A graph whose dependencies close a cycle has no topological order:
    /// no build order can put every module after the modules it depends on.
    #[verifier::spinoff_prover]
    pub proof fn lemma_cycle_has_no_topo_order(self, cycle: Seq<&'static str>)
        requires
            self.wf(),
            !self.has_missing(),
            self.names_cycle(cycle),
        ensures
            !self.has_topo_order(),
    {
        let p = choose|p: Seq<int>|
            #![trigger self.is_cycle_path(p)]
            self.is_cycle_path(p) && p.len() == cycle.len() && forall|x: int|
                0 <= x < cycle.len() ==> cycle[x] == #[trigger] self@[p[x]].name;
        let in_r = |v: int| exists|x: int| 0 <= x < p.len() - 1 && p[x] == v;
        assert(self.depends_on(p[0], p[1]));
        assert(in_r(p[0]));
        assert forall|v: int|
            0 <= v < self@.len() && #[trigger] in_r(v) implies exists|k: int|
                0 <= k < self.deps(v).len() && in_r(#[trigger] self.tgt(v, k)) by {
            let x = choose|x: int| 0 <= x < p.len() - 1 && p[x] == v;
            assert(self.depends_on(p[x], p[x + 1]));
            let w = p[x + 1];
            let k = choose|k: int| 0 <= k < self.deps(v).len() && #[trigger] self.deps(v)[k].1 == self.id(w);
            self.lemma_tgt(v, k);
            self.lemma_index_of_id(self.deps(v)[k].1, w);
            if x + 1 < p.len() - 1 {
                assert(in_r(w));
            } else {
                assert(w == p[0]);
                assert(in_r(w));
            }
        }
        self.lemma_stuck_no_topo(in_r, p[0]);
    }


    /// Export the dependency graph as a Graphviz DOT format string.
    ///
    /// Nodes are module names; directed edges represent dependencies
    /// (dependency -> dependent).
    pub fn to_dot(&self) -> (out: String)
        ensures
            out@ == dot_text(self@),
            forall|i: int, k: int|
                0 <= i < self@.len() && 0 <= k < self@[i].dependencies@.len() ==> is_infix(
                    "    \""@ + escaped(#[trigger] self@[i].dependencies@[k].0@) + "\" -> \""@ + escaped(
                        self@[i].name@,
                    ) + "\";\n"@,
                    out@,
                ),
    {
        let mut out = String::new();
        if self.entries.len() == 0 {
            push_str(&mut out, "digraph {}");
            return out;
        }
        push_str(&mut out, "digraph {\n");
        let n = self.entries.len();
        // Nodes
        let mut i: usize = 0;
        while i < n
            invariant
                n == self@.len(),
                i <= n,
                out@ == "digraph {\n"@ + dot_nodes(self@.take(i as int)),
            decreases n - i,
        {
            push_str(&mut out, "    \"");
            let label = escape_label(self.entries[i].name);
            push_str(&mut out, label.as_str());
            push_str(&mut out, "\";\n");
            proof {
                assert(self@.take(i + 1).drop_last() =~= self@.take(i as int));
            }
            i += 1;
            proof {
                assert(out@ =~= "digraph {\n"@ + dot_nodes(self@.take(i as int)));
            }
        }
        proof {
            assert(self@.take(n as int) =~= self@);
        }
        // Edges: dependency -> dependent
        let mut i: usize = 0;
        while i < n
            invariant
                n == self@.len(),
                i <= n,
                out@ == "digraph {\n"@ + dot_nodes(self@) + dot_edges(self@.take(i as int)),
            decreases n - i,
        {
            let entry = &self.entries[i];
            let deps = &entry.dependencies;
            let ghost before = out@;
            let mut k: usize = 0;
            while k < deps.len()
                invariant
                    k <= deps@.len(),
                    out@ == before + dot_dep_lines(deps@.take(k as int), entry.name@),
                decreases deps@.len() - k,
            {
                push_str(&mut out, "    \"");
                let from = escape_label(deps[k].0);
                push_str(&mut out, from.as_str());
                push_str(&mut out, "\" -> \"");
                let to = escape_label(entry.name);
                push_str(&mut out, to.as_str());
                push_str(&mut out, "\";\n");
                proof {
                    assert(deps@.take(k + 1).drop_last() =~= deps@.take(k as int));
                }
                k += 1;
                proof {
                    assert(out@ =~= before + dot_dep_lines(deps@.take(k as int), entry.name@));
                }
            }
            proof {
                assert(deps@.take(k as int) =~= deps@);
                assert(self@.take(i + 1).drop_last() =~= self@.take(i as int));
                assert(self@.take(i + 1).last() == *entry);
            }
            i += 1;
            proof {
                assert(out@ =~= "digraph {\n"@ + dot_nodes(self@) + dot_edges(self@.take(i as int)));
            }
        }
        push_char(&mut out, '}');
        proof {
            assert(self@.take(n as int) =~= self@);
            reveal_strlit("}");
            assert(out@ =~= dot_text(self@));
            assert forall|i: int, k: int|
                0 <= i < self@.len() && 0 <= k < self@[i].dependencies@.len() implies is_infix(
                    "    \""@ + escaped(#[trigger] self@[i].dependencies@[k].0@) + "\" -> \""@ + escaped(
                        self@[i].name@,
                    ) + "\";\n"@,
                    out@,
                ) by {
                lemma_dot_draws_every_dependency(self@, i, k);
            }
        }
        out
    }

    /// Export the dependency graph as a Mermaid flowchart format string.
    ///
    /// Uses `graph TD` (top-down) layout with index-based node ids. Edges run
    /// dependency --> dependent; edges to unregistered modules are skipped.
    pub fn to_mermaid(&self) -> (out: String)
        requires
            self.wf(),
        ensures
            out@ == self.mermaid_text(),
            forall|i: int, k: int|
                0 <= i < self@.len() && 0 <= k < self.deps(i).len() && self.contains_id(
                    #[trigger] self.deps(i)[k].1,
                ) ==> is_infix(
                    "    "@ + "n"@ + decimal(self.index_of_id(self.deps(i)[k].1) as nat) + "[\""@ + escaped(
                        self.deps(i)[k].0@,
                    ) + "\"]"@ + " --> "@ + "n"@ + decimal(i as nat) + "[\""@ + escaped(self@[i].name@)
                        + "\"]"@ + "\n"@,
                    out@,
                ),
    {
        let mut out = String::new();
        if self.entries.len() == 0 {
            push_str(&mut out, "graph TD");
            return out;
        }
        push_str(&mut out, "graph TD\n");
        let n = self.entries.len();
        let mut idx: usize = 0;
        while idx < n
            invariant
                self.wf(),
                n == self@.len(),
                idx <= n,
                out@ == "graph TD\n"@ + self.mermaid_edges(idx as nat),
            decreases n - idx,
        {
            let entry = &self.entries[idx];
            let deps = &entry.dependencies;
            let ghost before = out@;
            let mut k: usize = 0;
            while k < deps.len()
                invariant
                    self.wf(),
                    n == self@.len(),
                    idx < n,
                    *entry == self@[idx as int],
                    deps@ == self.deps(idx as int),
                    k <= deps@.len(),
                    out@ == before + self.mermaid_dep_lines(deps@.take(k as int), idx as nat),
                decreases deps@.len() - k,
            {
                proof {
                    assert(deps@.take(k + 1).drop_last() =~= deps@.take(k as int));
                }
                match self.index_of(&deps[k].1) {
                    Some(dep_idx) => {
                        proof {
                            self.lemma_index_of_id(deps@[k as int].1, dep_idx as int);
                        }
                        push_mermaid_edge(&mut out, dep_idx, deps[k].0, idx, entry.name);
                        proof {
                            assert(out@ =~= before + self.mermaid_dep_lines(deps@.take(k + 1), idx as nat));
                        }
                    },
                    None => {
                        proof {
                            assert(out@ =~= before + self.mermaid_dep_lines(deps@.take(k + 1), idx as nat));
                        }
                    },
                }
                k += 1;
            }
            proof {
                assert(deps@.take(k as int) =~= deps@);
            }
            idx += 1;
            proof {
                assert(out@ =~= "graph TD\n"@ + self.mermaid_edges(idx as nat));
            }
        }
        // Ensure nodes with no dependencies still appear
        let ghost edges = out@;
        let mut idx: usize = 0;
        while idx < n
            invariant
                n == self@.len(),
                idx <= n,
                out@ == edges + self.mermaid_isolated(idx as nat),
            decreases n - idx,
        {
            let entry = &self.entries[idx];
            if entry.dependencies.len() == 0 {
                push_mermaid_isolated(&mut out, idx, entry.name);
            }
            idx += 1;
            proof {
                assert(out@ =~= edges + self.mermaid_isolated(idx as nat));
            }
        }
        proof {
            assert forall|i: int, k: int|
                0 <= i < self@.len() && 0 <= k < self.deps(i).len() && self.contains_id(
                    #[trigger] self.deps(i)[k].1,
                ) implies is_infix(
                    "    "@ + "n"@ + decimal(self.index_of_id(self.deps(i)[k].1) as nat) + "[\""@ + escaped(
                        self.deps(i)[k].0@,
                    ) + "\"]"@ + " --> "@ + "n"@ + decimal(i as nat) + "[\""@ + escaped(self@[i].name@)
                        + "\"]"@ + "\n"@,
                    out@,
                ) by {
                self.lemma_mermaid_draws_every_dependency(i);
            }
        }
        out
    }

    /// Get the registered names of all dependencies for a module.
    pub fn dependency_names(&self, type_id: TypeId) -> (r: Vec<&'static str>)
        requires
            self.wf(),
        ensures
            self.contains_id(type_id) ==> r@ == self.deps(self.index_of_id(type_id)).map_values(
                |d: (&'static str, TypeId)| d.0,
            ),
            !self.contains_id(type_id) ==> r@ == Seq::<&'static str>::empty(),
    {
        match self.index_of(&type_id) {
            Some(idx) => {
                let deps = &self.entries[idx].dependencies;
                let mut names: Vec<&'static str> = Vec::new();
                let mut k: usize = 0;
                while k < deps.len()
                    invariant
                        k <= deps@.len(),
                        names@ == deps@.take(k as int).map_values(|d: (&'static str, TypeId)| d.0),
                    decreases deps@.len() - k,
                {
                    proof {
                        assert(deps@.take(k as int + 1) =~= deps@.take(k as int).push(deps@[k as int]));
                    }
                    names.push(deps[k].0);
                    k += 1;
                    proof {
                        assert(names@ =~= deps@.take(k as int).map_values(|d: (&'static str, TypeId)| d.0));
                    }
                }
                proof {
                    assert(deps@.take(k as int) =~= deps@);
                    assert(self.index_of_id(type_id) == idx as int);
                }
                names
            },
            None => Vec::new(),
        }
    }

    /// Get all entries in registration order.
    pub fn entries(&self) -> (r: &[ModuleEntry])
        ensures
            r@ == self@,
    {
        self.entries.as_slice()
    }

    /// Look up a module's diagnostic name by `TypeId`.
    pub fn name_of(&self, type_id: TypeId) -> (r: Option<&'static str>)
        requires
            self.wf(),
        ensures
            match r {
                Some(n) => self.contains_id(type_id) && n == self@[self.index_of_id(type_id)].name,
                None => !self.contains_id(type_id),
            },
    {
        match self.index_of(&type_id) {
            Some(idx) => {
                proof {
                    assert(self.index_of_id(type_id) == idx as int);
                }
                Some(self.entries[idx].name)
            },
            None => None,
        }
    }
}


/// Writes the names along the cycle closed by the back edge from the top of
/// `stack` to `dep_idx` (which sits at `start` on the stack).
fn collect_cycle(
    g: &DependencyGraph,
    stack: &Vec<usize>,
    start: usize,
    dep_idx: usize,
    cycle_names: &mut Vec<&'static str>,
)
    requires
        g.wf(),
        g.dfs_inv_path(stack@),
        stack@.len() > 0,
        g.depends_on(stack@.last() as int, dep_idx as int),
        start < stack@.len(),
        stack@[start as int] == dep_idx,
        old(cycle_names)@ == Seq::<&'static str>::empty(),
    ensures
        g.names_cycle(final(cycle_names)@),
{
    let ghost n = g@.len();
    let mut x = start;
    while x < stack.len()
        invariant
            g.wf(),
            n == g@.len(),
            g.dfs_inv_path(stack@),
            start <= x <= stack@.len(),
            start < stack@.len(),
            cycle_names@ == stack@.subrange(start as int, x as int).map_values(
                |v: usize| g@[v as int].name,
            ),
        decreases stack@.len() - x,
    {
        proof {
            assert(stack@[x as int] < n);
        }
        cycle_names.push(g.entries[stack[x]].name);
        x += 1;
        proof {
            assert(cycle_names@ =~= stack@.subrange(start as int, x as int).map_values(
                |v: usize| g@[v as int].name,
            ));
        }
    }
    cycle_names.push(g.entries[dep_idx].name);
    proof {
        let path = stack@.subrange(start as int, stack@.len() as int).map_values(
            |v: usize| v as int,
        ).push(dep_idx as int);
        assert(path.len() == cycle_names@.len());
        assert(path[0] == dep_idx as int);
        assert forall|y: int| 0 <= y < path.len() - 1 implies g.depends_on(
            #[trigger] path[y],
            path[y + 1],
        ) by {
            if y + 1 < path.len() - 1 {
                assert(path[y] == stack@[start + y] as int);
                assert(path[y + 1] == stack@[start + y + 1] as int);
                assert(g.depends_on(stack@[start + y] as int, stack@[start + y + 1] as int));
            } else {
                assert(path[y] == stack@[stack@.len() - 1] as int);
            }
        }
        assert forall|y: int| 0 <= y < cycle_names@.len() implies cycle_names@[y]
            == #[trigger] g@[path[y]].name by {
            if y < cycle_names@.len() - 1 {
                assert(path[y] == stack@[start + y] as int);
            }
        }
        assert(g.is_cycle_path(path));
    }
}

/// Marks only move forward: visited and finished nodes keep their marks, and
/// every node still unvisited in `b` was unvisited in `a`.
pub open spec fn marks_grow(a: Seq<u8>, b: Seq<u8>) -> bool {
    &&& a.len() == b.len()
    &&& forall|v: int| 0 <= v < a.len() && #[trigger] a[v] == 2 ==> b[v] == 2
    &&& forall|v: int| 0 <= v < a.len() && #[trigger] b[v] == 0 ==> a[v] == 0
}

/// `b` extends `a`.
pub open spec fn extends(a: Seq<usize>, b: Seq<usize>) -> bool {
    &&& a.len() <= b.len()
    &&& forall|x: int| 0 <= x < a.len() ==> #[trigger] b[x] == a[x]
}

proof fn lemma_marks_grow_trans(a: Seq<u8>, b: Seq<u8>, c: Seq<u8>)
    requires
        marks_grow(a, b),
        marks_grow(b, c),
    ensures
        marks_grow(a, c),
{
    assert forall|v: int| 0 <= v < a.len() && #[trigger] a[v] == 2 implies c[v] == 2 by {
        assert(b[v] == 2);
    }
    assert forall|v: int| 0 <= v < a.len() && #[trigger] c[v] == 0 implies a[v] == 0 by {
        assert(b[v] == 0);
    }
}

proof fn lemma_extends_trans(a: Seq<usize>, b: Seq<usize>, c: Seq<usize>)
    requires
        extends(a, b),
        extends(b, c),
    ensures
        extends(a, c),
{
    assert forall|x: int| 0 <= x < a.len() implies #[trigger] c[x] == a[x] by {
        assert(b[x] == a[x]);
    }
}

/// Depth-first visit from `node`; on a back edge, writes the names along the
/// cycle into `cycle_names` and returns `true`.
fn cycle_dfs(
    g: &DependencyGraph,
    node: usize,
    visited: &mut Vec<u8>,
    stack: &mut Vec<usize>,
    stack_pos: &mut Vec<usize>,
    cycle_names: &mut Vec<&'static str>,
    fin: &mut Ghost<Seq<usize>>,
) -> (found: bool)
    requires
        g.wf(),
        !g.has_missing(),
        g.dfs_inv(old(visited)@, old(stack)@, old(stack_pos)@, old(fin)@),
        node < g@.len(),
        old(visited)@[node as int] == 0,
        old(stack)@.len() > 0 ==> g.depends_on(old(stack)@.last() as int, node as int),
        old(cycle_names)@ == Seq::<&'static str>::empty(),
    ensures
        found ==> g.names_cycle(final(cycle_names)@),
        !found ==> {
            &&& g.dfs_inv(final(visited)@, final(stack)@, final(stack_pos)@, final(fin)@)
            &&& final(visited)@[node as int] == 2
            &&& final(stack)@ == old(stack)@
            &&& final(cycle_names)@ == Seq::<&'static str>::empty()
            &&& white_count(final(visited)@) < white_count(old(visited)@)
            &&& marks_grow(old(visited)@, final(visited)@)
            &&& extends(old(fin)@, final(fin)@)
        },
    decreases white_count(old(visited)@),
{
    let ghost vis0 = visited@;
    let ghost stack0 = stack@;
    let ghost fin0 = fin@;
    let sl = stack.len();
    proof {
        lemma_white_count_update(visited@, node as int, 1);
        g.lemma_dfs_enter(visited@, stack@, stack_pos@, fin@, node, sl);
    }
    visited.set(node, 1);
    stack_pos.set(node, sl);
    stack.push(node);
    proof {
        assert(marks_grow(vis0, visited@));
        assert(extends(fin0, fin@));
    }
    let ghost vis1 = visited@;
    let deps = &g.entries[node].dependencies;
    let mut k: usize = 0;
    while k < deps.len()
        invariant
            g.wf(),
            !g.has_missing(),
            node < g@.len(),
            deps@ == g.deps(node as int),
            k <= deps@.len(),
            g.dfs_inv(visited@, stack@, stack_pos@, fin@),
            stack@ == stack0.push(node),
            visited@[node as int] == 1,
            cycle_names@ == Seq::<&'static str>::empty(),
            white_count(visited@) <= white_count(vis1),
            white_count(vis1) < white_count(vis0),
            vis0 == old(visited)@,
            marks_grow(vis0, visited@),
            extends(fin0, fin@),
            forall|k2: int| 0 <= k2 < k ==> #[trigger] visited@[g.tgt(node as int, k2)] == 2,
        decreases deps@.len() - k,
    {
        proof {
            g.lemma_tgt(node as int, k as int);
        }
        if let Some(dep_idx) = g.index_of(&deps[k].1) {
            proof {
                g.lemma_index_of_id(deps@[k as int].1, dep_idx as int);
                assert(g.depends_on(node as int, dep_idx as int));
            }
            if visited[dep_idx] == 1 {
                // Found cycle: the path from `dep_idx` on the stack to `node`, then back.
                let start = stack_pos[dep_idx];
                proof {
                    assert(stack@.contains(dep_idx));
                    let x = choose|x: int| 0 <= x < stack@.len() && stack@[x] == dep_idx;
                    assert(stack_pos@[stack@[x] as int] == x);
                    assert(stack@.last() == node);
                }
                collect_cycle(g, stack, start, dep_idx, cycle_names);
                return true;
            }
            if visited[dep_idx] == 0 {
                let ghost vis_before = visited@;
                let ghost fin_before_call = fin@;
                proof {
                    assert(stack@.last() == node);
                }
                if cycle_dfs(g, dep_idx, visited, stack, stack_pos, cycle_names, fin) {
                    return true;
                }
                proof {
                    lemma_marks_grow_trans(vis0, vis_before, visited@);
                    lemma_extends_trans(fin0, fin_before_call, fin@);
                    assert forall|k2: int| 0 <= k2 < k implies #[trigger] visited@[g.tgt(node as int, k2)] == 2 by {
                        g.lemma_tgt(node as int, k2);
                        assert(vis_before[g.tgt(node as int, k2)] == 2);
                    }
                    assert(visited@[node as int] == 1);
                }
            }
            proof {
                assert(visited@[dep_idx as int] == 2);
            }
        }
        k += 1;
    }
    // Finish `node`: pop it from the path and append it to the finish order.
    let ghost vis2 = visited@;
    let ghost fin2 = fin@;
    let ghost pos2 = stack_pos@;
    proof {
        g.lemma_dfs_finish(vis2, stack0, pos2, fin2, node);
        lemma_white_count_update(vis2, node as int, 2);
    }
    stack.pop();
    visited.set(node, 2);
    proof {
        fin@ = fin@.push(node);
        assert(stack@ =~= stack0);
        assert(marks_grow(vis2, visited@));
        lemma_marks_grow_trans(vis0, vis2, visited@);
        assert(extends(fin2, fin@));
        lemma_extends_trans(fin0, fin2, fin@);
    }
    false
}

impl Default for DependencyGraph {
    /// An empty graph.
    fn default() -> (g: Self)
        ensures
            g@ == Seq::<ModuleEntry>::empty(),
            g.wf(),
    {
        Self::new()
    }
}

} // verus!
