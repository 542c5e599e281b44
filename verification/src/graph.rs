//! The prerequisite graph: node and edge lists derived from the parsed
//! records for a subject filter, plus the identifier normalization the
//! external renderer consumes.

use vstd::prelude::*;
use crate::course::{code_display, Course, CourseView};
use crate::parse::course_views;
use crate::text::{chars_eq, chars_to_string, str_to_chars};

verus! {

/// The filter value that selects every course.
pub open spec fn wildcard() -> Seq<char> {
    "*"@
}

/// A course contributes a node iff its prefix equals the filter, or the
/// filter is the wildcard.
pub open spec fn node_included(c: CourseView, filter: Seq<char>) -> bool {
    c.code.prefix == filter || filter == wildcard()
}

/// The node list over `cs[i..]`: the display string of every included
/// course, in course order.
pub open spec fn nodes_from(cs: Seq<CourseView>, filter: Seq<char>, i: int) -> Seq<Seq<char>>
    decreases cs.len() - i,
{
    if i < 0 || i >= cs.len() {
        Seq::empty()
    } else {
        let rest = nodes_from(cs, filter, i + 1);
        if node_included(cs[i], filter) {
            seq![code_display(cs[i].code)] + rest
        } else {
            rest
        }
    }
}

/// The edges one course contributes: one per prerequisite entry, from the
/// prerequisite's text to the course's display string.
pub open spec fn course_edges(c: CourseView) -> Seq<(Seq<char>, Seq<char>)> {
    Seq::new(c.pre_requirements.len(), |i: int| (c.pre_requirements[i], code_display(c.code)))
}

/// The edge list over `cs[i..]`: edges of every course whose prefix
/// equals the filter exactly (the wildcard selects no course here), in
/// course order then prerequisite order.
pub open spec fn edges_from(cs: Seq<CourseView>, filter: Seq<char>, i: int) -> Seq<
    (Seq<char>, Seq<char>),
>
    decreases cs.len() - i,
{
    if i < 0 || i >= cs.len() {
        Seq::empty()
    } else {
        let rest = edges_from(cs, filter, i + 1);
        if cs[i].code.prefix == filter {
            course_edges(cs[i]) + rest
        } else {
            rest
        }
    }
}

/// The node and edge lists handed to the external renderer.
pub struct Graph {
    pub nodes: Vec<String>,
    pub edges: Vec<(String, String)>,
}

/// The views of a built edge list.
pub open spec fn edge_views(v: Seq<(String, String)>) -> Seq<(Seq<char>, Seq<char>)> {
    Seq::new(v.len(), |i: int| (v[i].0@, v[i].1@))
}

/// The views of a built node list.
pub open spec fn node_views(v: Seq<String>) -> Seq<Seq<char>> {
    Seq::new(v.len(), |i: int| v[i]@)
}

/// Build the graph for a subject filter over an owned snapshot of the
/// records: nodes for every course the filter shows, and one edge per
/// prerequisite of every course whose prefix equals the filter exactly.
/// Dangling edge sources are deliberate: a prerequisite's text need not
/// name a fetched course.
pub fn build_graph(courses: &Vec<Course>, subject_filter: &str) -> (g: Graph)
    ensures
        node_views(g.nodes@) == nodes_from(course_views(courses@), subject_filter@, 0),
        edge_views(g.edges@) == edges_from(course_views(courses@), subject_filter@, 0),
{
    let ghost cs = course_views(courses@);
    let filter_v = str_to_chars(subject_filter);
    let star_v = str_to_chars("*");
    let mut nodes: Vec<String> = Vec::new();
    let mut edges: Vec<(String, String)> = Vec::new();
    let mut i: usize = 0;
    proof {
        assert(node_views(nodes@) + nodes_from(cs, subject_filter@, 0) =~= nodes_from(
            cs,
            subject_filter@,
            0,
        ));
        assert(edge_views(edges@) + edges_from(cs, subject_filter@, 0) =~= edges_from(
            cs,
            subject_filter@,
            0,
        ));
    }
    while i < courses.len()
        invariant
            i <= courses@.len(),
            cs == course_views(courses@),
            filter_v@ == subject_filter@,
            star_v@ == wildcard(),
            nodes_from(cs, subject_filter@, 0) == node_views(nodes@) + nodes_from(
                cs,
                subject_filter@,
                i as int,
            ),
            edges_from(cs, subject_filter@, 0) == edge_views(edges@) + edges_from(
                cs,
                subject_filter@,
                i as int,
            ),
        decreases courses@.len() - i,
    {
        let course = &courses[i];
        let prefix_v = str_to_chars(course.code.prefix.as_str());
        let matches_filter = chars_eq(&prefix_v, &filter_v);
        let is_wild = chars_eq(&filter_v, &star_v);
        if matches_filter || is_wild {
            let ghost old_nodes = node_views(nodes@);
            nodes.push(course.code.display());
            proof {
                assert(node_views(nodes@) =~= old_nodes + seq![code_display(cs[i as int].code)]);
                assert(nodes_from(cs, subject_filter@, i as int) == seq![
                    code_display(cs[i as int].code),
                ] + nodes_from(cs, subject_filter@, i + 1));
                assert(old_nodes + (seq![code_display(cs[i as int].code)] + nodes_from(
                    cs,
                    subject_filter@,
                    i + 1,
                )) =~= node_views(nodes@) + nodes_from(cs, subject_filter@, i + 1));
            }
        } else {
            proof {
                assert(nodes_from(cs, subject_filter@, i as int) == nodes_from(
                    cs,
                    subject_filter@,
                    i + 1,
                ));
            }
        }
        if matches_filter {
            let ghost old_edges = edge_views(edges@);
            let disp = course.code.display();
            let mut j: usize = 0;
            while j < course.pre_requirements.len()
                invariant
                    j <= course.pre_requirements@.len(),
                    course@ == cs[i as int],
                    0 <= i < cs.len(),
                    disp@ == code_display(cs[i as int].code),
                    edge_views(edges@).len() == old_edges.len() + j,
                    forall|m: int| 0 <= m < old_edges.len() ==> edge_views(edges@)[m]
                        == old_edges[m],
                    forall|m: int| 0 <= m < j ==> edge_views(edges@)[old_edges.len() + m]
                        == course_edges(cs[i as int])[m],
                decreases course.pre_requirements@.len() - j,
            {
                let src = course.pre_requirements[j].clone();
                let dst = disp.clone();
                edges.push((src, dst));
                j += 1;
            }
            proof {
                assert(edge_views(edges@) =~= old_edges + course_edges(cs[i as int]));
                assert(edges_from(cs, subject_filter@, i as int) == course_edges(cs[i as int])
                    + edges_from(cs, subject_filter@, i + 1));
                assert(old_edges + (course_edges(cs[i as int]) + edges_from(
                    cs,
                    subject_filter@,
                    i + 1,
                )) =~= edge_views(edges@) + edges_from(cs, subject_filter@, i + 1));
            }
        } else {
            proof {
                assert(edges_from(cs, subject_filter@, i as int) == edges_from(
                    cs,
                    subject_filter@,
                    i + 1,
                ));
            }
        }
        i += 1;
    }
    proof {
        assert(node_views(nodes@) + nodes_from(cs, subject_filter@, i as int) =~= node_views(
            nodes@,
        ));
        assert(edge_views(edges@) + edges_from(cs, subject_filter@, i as int) =~= edge_views(
            edges@,
        ));
    }
    Graph { nodes, edges }
}

/// The normalized identifier of a display string: ASCII uppercase letters
/// lowered, spaces replaced with underscores, all else unchanged.
pub open spec fn ident_char(c: char) -> char {
    if c == ' ' {
        '_'
    } else if 65 <= c as u32 && c as u32 <= 90 {
        ((c as u32 + 32) as u8) as char
    } else {
        c
    }
}

/// The renderer-facing identifier of a node label.
pub open spec fn ident_of(s: Seq<char>) -> Seq<char> {
    s.map_values(|c: char| ident_char(c))
}

/// The normalized identifier the external renderer uses for a node: the
/// label lowercased (ASCII), spaces turned into underscores.
pub fn node_identifier(label: &str) -> (r: String)
    ensures
        r@ == ident_of(label@),
{
    let chars = str_to_chars(label);
    let mut out: Vec<char> = Vec::new();
    let mut i: usize = 0;
    while i < chars.len()
        invariant
            i <= chars@.len(),
            chars@ == label@,
            out@.len() == i,
            forall|m: int| 0 <= m < i ==> out@[m] == ident_char(label@[m]),
        decreases chars@.len() - i,
    {
        let c = chars[i];
        let v = c as u32;
        if c == ' ' {
            out.push('_');
        } else if 65 <= v && v <= 90 {
            let lower = ((v + 32) as u8) as char;
            out.push(lower);
        } else {
            out.push(c);
        }
        i += 1;
    }
    proof {
        assert(out@ =~= ident_of(label@));
    }
    chars_to_string(&out)
}

// ------------------------------------------------------------------
// Laws of the graph.
// ------------------------------------------------------------------

/// The subject prefixes present in a record set.
pub open spec fn prefixes_present(cs: Seq<CourseView>) -> Set<Seq<char>> {
    Set::new(|p: Seq<char>| exists|i: int| 0 <= i < cs.len() && cs[i].code.prefix == p)
}

proof fn lemma_nodes_membership(cs: Seq<CourseView>, filter: Seq<char>, i: int)
    requires
        0 <= i,
    ensures
        forall|n: Seq<char>| #[trigger] nodes_from(cs, filter, i).contains(n) <==> exists|k: int|
            i <= k < cs.len() && node_included(cs[k], filter) && n == code_display(cs[k].code),
    decreases cs.len() - i,
{
    if i < 0 || i >= cs.len() {
    } else {
        lemma_nodes_membership(cs, filter, i + 1);
        let rest = nodes_from(cs, filter, i + 1);
        let cur = nodes_from(cs, filter, i);
        assert forall|n: Seq<char>| #[trigger] cur.contains(n) implies exists|k: int|
            i <= k < cs.len() && node_included(cs[k], filter) && n == code_display(
            cs[k].code,
        ) by {
            if node_included(cs[i], filter) {
                let m = choose|m: int| 0 <= m < cur.len() && cur[m] == n;
                if m == 0 {
                    assert(i <= i < cs.len() && node_included(cs[i], filter) && n
                        == code_display(cs[i].code));
                } else {
                    assert(rest[m - 1] == n);
                    assert(rest.contains(n));
                    let k = choose|k: int|
                        i + 1 <= k < cs.len() && node_included(cs[k], filter) && n
                            == code_display(cs[k].code);
                    assert(i <= k < cs.len() && node_included(cs[k], filter) && n
                        == code_display(cs[k].code));
                }
            } else {
                assert(cur == rest);
                assert(rest.contains(n));
                let k = choose|k: int|
                    i + 1 <= k < cs.len() && node_included(cs[k], filter) && n == code_display(
                        cs[k].code,
                    );
                assert(i <= k < cs.len() && node_included(cs[k], filter) && n == code_display(
                    cs[k].code,
                ));
            }
        }
        assert forall|n: Seq<char>|
            (exists|k: int|
                i <= k < cs.len() && node_included(cs[k], filter) && n == code_display(
                    cs[k].code,
                )) implies #[trigger] cur.contains(n) by {
            let k = choose|k: int|
                i <= k < cs.len() && node_included(cs[k], filter) && n == code_display(
                    cs[k].code,
                );
            if k == i {
                assert(cur[0] == n);
                assert(cur.contains(n));
            } else {
                assert(i + 1 <= k < cs.len() && node_included(cs[k], filter) && n
                    == code_display(cs[k].code));
                assert(rest.contains(n));
                let m = choose|m: int| 0 <= m < rest.len() && rest[m] == n;
                if node_included(cs[i], filter) {
                    assert(cur[m + 1] == n);
                } else {
                    assert(cur[m] == n);
                }
                assert(cur.contains(n));
            }
        }
    }
}

/// Law: the node set for the wildcard filter equals the union of the node
/// sets for the individual subject prefixes present in the input.
pub proof fn lemma_wildcard_nodes_union(cs: Seq<CourseView>)
    ensures
        forall|n: Seq<char>| #[trigger] nodes_from(cs, wildcard(), 0).contains(n) <==> exists|
            p: Seq<char>,
        | prefixes_present(cs).contains(p) && nodes_from(cs, p, 0).contains(n),
{
    lemma_nodes_membership(cs, wildcard(), 0);
    assert forall|n: Seq<char>| #[trigger] nodes_from(cs, wildcard(), 0).contains(n) implies
        exists|p: Seq<char>| prefixes_present(cs).contains(p) && nodes_from(cs, p, 0).contains(
            n,
        ) by {
        let k = choose|k: int|
            0 <= k < cs.len() && node_included(cs[k], wildcard()) && n == code_display(
                cs[k].code,
            );
        let p = cs[k].code.prefix;
        assert(prefixes_present(cs).contains(p));
        lemma_nodes_membership(cs, p, 0);
        assert(node_included(cs[k], p));
        assert(nodes_from(cs, p, 0).contains(n));
    }
    assert forall|n: Seq<char>|
        (exists|p: Seq<char>| prefixes_present(cs).contains(p) && nodes_from(cs, p, 0).contains(
            n,
        )) implies #[trigger] nodes_from(cs, wildcard(), 0).contains(n) by {
        let p = choose|p: Seq<char>|
            prefixes_present(cs).contains(p) && nodes_from(cs, p, 0).contains(n);
        lemma_nodes_membership(cs, p, 0);
        let k = choose|k: int|
            0 <= k < cs.len() && node_included(cs[k], p) && n == code_display(cs[k].code);
        assert(node_included(cs[k], wildcard()));
        assert(nodes_from(cs, wildcard(), 0).contains(n));
    }
}

/// The sum of prerequisite-list lengths over `cs[i..]`, counting only the
/// courses whose prefix equals the filter exactly.
pub open spec fn sum_pre_lens(cs: Seq<CourseView>, filter: Seq<char>, i: int) -> int
    decreases cs.len() - i,
{
    if i < 0 || i >= cs.len() {
        0
    } else {
        (if cs[i].code.prefix == filter {
            cs[i].pre_requirements.len() as int
        } else {
            0
        }) + sum_pre_lens(cs, filter, i + 1)
    }
}

/// Law: the edge count for a filter equals the sum of the
/// prerequisite-list lengths over the courses whose prefix equals that
/// filter exactly.
pub proof fn lemma_edge_count(cs: Seq<CourseView>, filter: Seq<char>, i: int)
    ensures
        edges_from(cs, filter, i).len() == sum_pre_lens(cs, filter, i),
    decreases cs.len() - i,
{
    if i < 0 || i >= cs.len() {
    } else {
        lemma_edge_count(cs, filter, i + 1);
    }
}

} // verus!
