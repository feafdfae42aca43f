//! The parts of drawing a concept lattice that do not depend on a layout:
//! which algorithms and sizes are accepted, the covering edges between
//! concepts, the reduced labels of each concept, and escaping text for SVG.
use vstd::prelude::*;
use bit_set::BitSet;
use crate::bitset::{members, below, pair_sets, bs_new, bs_insert, bs_is_subset, bs_eq};
use crate::concepts::{lists_all_concepts, law_concept_listing_unique};
use crate::concept::sorted_by_intent;
use crate::context::{ContextView, FormalContext, lemma_intent_closed, lemma_extent_closed};
use crate::errors::FcaError;
use crate::labelset::labels_at;
use crate::names::label_views;

verus! {

/// Whether `algorithm` names a layout algorithm: "dimdraw" or "sugiyama",
/// and "dimflux" where `allow_dimflux` (drawings of contexts, not of bare
/// posets).
pub open spec fn known_algorithm(algorithm: Seq<char>, allow_dimflux: bool) -> bool {
    algorithm == "dimdraw"@ || algorithm == "sugiyama"@ || (allow_dimflux && algorithm == "dimflux"@)
}

/// Refuses an unknown layout algorithm.
pub fn check_algorithm(algorithm: &String, allow_dimflux: bool) -> (r: Result<(), FcaError>)
    ensures
        known_algorithm(algorithm@, allow_dimflux) ==> r is Ok,
        !known_algorithm(algorithm@, allow_dimflux) ==> (r matches Err(FcaError::UnknownAlgorithm(s)) && s@ == algorithm@),
{
    let dimdraw = "dimdraw".to_string();
    let sugiyama = "sugiyama".to_string();
    let dimflux = "dimflux".to_string();
    if *algorithm == dimdraw || *algorithm == sugiyama || (allow_dimflux && *algorithm == dimflux) {
        Ok(())
    } else {
        Err(FcaError::UnknownAlgorithm(algorithm.clone()))
    }
}

/// Refuses a drawing size that is not positive in both directions.
pub fn check_size(width: i64, height: i64) -> (r: Result<(), FcaError>)
    ensures
        (width > 0 && height > 0) ==> r is Ok,
        !(width > 0 && height > 0) ==> r matches Err(FcaError::NonPositiveSize),
{
    if width <= 0 || height <= 0 {
        Err(FcaError::NonPositiveSize)
    } else {
        Ok(())
    }
}

/// The characters that stand for `ch` in SVG text.
pub open spec fn escape_char(ch: char) -> Seq<char> {
    if ch == '&' {
        seq!['&', 'a', 'm', 'p', ';']
    } else if ch == '<' {
        seq!['&', 'l', 't', ';']
    } else if ch == '>' {
        seq!['&', 'g', 't', ';']
    } else if ch == '"' {
        seq!['&', 'q', 'u', 'o', 't', ';']
    } else {
        seq![ch]
    }
}

/// `s` with `&`, `<`, `>` and `"` replaced by their character references.
pub open spec fn escape_html(s: Seq<char>) -> Seq<char>
    decreases s.len(),
{
    if s.len() == 0 {
        Seq::empty()
    } else {
        escape_html(s.drop_last()) + escape_char(s.last())
    }
}

fn push_all(out: &mut Vec<char>, chars: &[char])
    ensures
        final(out)@ == old(out)@ + chars@,
{
    let mut i: usize = 0;
    while i < chars.len()
        invariant
            i <= chars@.len(),
            out@ == old(out)@ + chars@.take(i as int),
        decreases chars@.len() - i,
    {
        out.push(chars[i]);
        i = i + 1;
        assert(out@ =~= old(out)@ + chars@.take(i as int));
    }
    assert(chars@.take(chars@.len() as int) =~= chars@);
}

/// Escapes text for SVG.
pub fn html_escape(s: &Vec<char>) -> (r: Vec<char>)
    ensures
        r@ == escape_html(s@),
        unescape_html(r@) == s@,
{
    proof { law_unescape_escape(s@); }
    let mut out: Vec<char> = Vec::new();
    let mut i: usize = 0;
    while i < s.len()
        invariant
            i <= s@.len(),
            out@ == escape_html(s@.take(i as int)),
        decreases s@.len() - i,
    {
        let ch = s[i];
        if ch == '&' {
            push_all(&mut out, &['&', 'a', 'm', 'p', ';']);
        } else if ch == '<' {
            push_all(&mut out, &['&', 'l', 't', ';']);
        } else if ch == '>' {
            push_all(&mut out, &['&', 'g', 't', ';']);
        } else if ch == '"' {
            push_all(&mut out, &['&', 'q', 'u', 'o', 't', ';']);
        } else {
            out.push(ch);
        }
        proof {
            let t1 = s@.take(i + 1);
            assert(t1.drop_last() =~= s@.take(i as int));
            assert(t1.last() == ch);
            assert(out@ =~= escape_html(t1));
        }
        i = i + 1;
    }
    assert(s@.take(s@.len() as int) =~= s@);
    out
}

/// The concept lattice without a layout: every concept, the covering edges
/// `(lower, upper)` between them, and the reduced labels of each concept.
pub struct LatticeDiagram {
    concepts: Vec<(BitSet, BitSet)>,
    edges: Vec<(usize, usize)>,
    object_labels: Vec<Vec<String>>,
    attribute_labels: Vec<Vec<String>>,
}

/// Concept `j` lies directly above concept `i`: its extent is strictly larger
/// and no listed extent lies strictly between.
pub open spec fn covers(v: Seq<(Set<usize>, Set<usize>)>, i: int, j: int) -> bool {
    &&& 0 <= i < v.len()
    &&& 0 <= j < v.len()
    &&& v[i].0.subset_of(v[j].0)
    &&& v[i].0 != v[j].0
    &&& forall|k: int| 0 <= k < v.len() && v[i].0.subset_of(#[trigger] v[k].0) && v[k].0.subset_of(v[j].0) ==> v[k].0 == v[i].0 || v[k].0 == v[j].0
}

/// `edges` lists every covering pair of `v` once.
pub open spec fn lists_covers(v: Seq<(Set<usize>, Set<usize>)>, edges: Seq<(usize, usize)>) -> bool {
    &&& forall|k: int| 0 <= k < edges.len() ==> covers(v, (#[trigger] edges[k]).0 as int, edges[k].1 as int)
    &&& forall|i: int, j: int| #[trigger] covers(v, i, j) ==> edges.contains((i as usize, j as usize))
    &&& forall|k: int, l: int| 0 <= k < l < edges.len() ==> #[trigger] edges[k] != #[trigger] edges[l]
}

/// The members of `s` below `k`, in increasing order.
pub open spec fn sorted_below(s: Set<usize>, k: nat) -> Seq<usize>
    decreases k,
{
    if k == 0 {
        Seq::empty()
    } else {
        let rest = sorted_below(s, (k - 1) as nat);
        if s.contains((k - 1) as usize) { rest.push((k - 1) as usize) } else { rest }
    }
}

/// The objects whose object concept is concept `e`: those whose closure is the extent `e`.
pub open spec fn objects_labelling(c: ContextView, e: Set<usize>) -> Set<usize> {
    Set::new(|g: usize| g < c.n_obj() && c.object_hull(set![g]) == e)
}

/// The attributes whose attribute concept has extent `e`.
pub open spec fn attributes_labelling(c: ContextView, e: Set<usize>) -> Set<usize> {
    Set::new(|m: usize| m < c.n_attr() && c.extent_of(set![m]) == e)
}

impl LatticeDiagram {
    pub closed spec fn nodes(&self) -> Seq<(Set<usize>, Set<usize>)> {
        pair_sets(self.concepts@)
    }

    pub closed spec fn edge_list(&self) -> Seq<(usize, usize)> {
        self.edges@
    }

    pub closed spec fn object_label_lists(&self) -> Seq<Seq<Seq<char>>> {
        self.object_labels@.map_values(|v: Vec<String>| label_views(v@))
    }

    pub closed spec fn attribute_label_lists(&self) -> Seq<Seq<Seq<char>>> {
        self.attribute_labels@.map_values(|v: Vec<String>| label_views(v@))
    }

    /// The diagram describes the context `c`.
    pub open spec fn describes(&self, c: ContextView) -> bool {
        &&& lists_all_concepts(c, self.nodes())
        &&& sorted_by_intent(self.nodes())
        &&& lists_covers(self.nodes(), self.edge_list())
        &&& self.object_label_lists().len() == self.nodes().len()
        &&& self.attribute_label_lists().len() == self.nodes().len()
        &&& forall|i: int| 0 <= i < self.nodes().len() ==>
            #[trigger] self.object_label_lists()[i] == labels_at(c.objects, sorted_below(objects_labelling(c, self.nodes()[i].0), c.n_obj()))
        &&& forall|i: int| 0 <= i < self.nodes().len() ==>
            #[trigger] self.attribute_label_lists()[i] == labels_at(c.attributes, sorted_below(attributes_labelling(c, self.nodes()[i].0), c.n_attr()))
    }

    pub fn concepts(&self) -> (r: &Vec<(BitSet, BitSet)>)
        ensures
            pair_sets(r@) == self.nodes(),
    {
        &self.concepts
    }

    pub fn edges(&self) -> (r: &Vec<(usize, usize)>)
        ensures
            r@ == self.edge_list(),
    {
        &self.edges
    }

    pub fn object_labels(&self) -> (r: &Vec<Vec<String>>)
        ensures
            r@.map_values(|v: Vec<String>| label_views(v@)) == self.object_label_lists(),
    {
        &self.object_labels
    }

    pub fn attribute_labels(&self) -> (r: &Vec<Vec<String>>)
        ensures
            r@.map_values(|v: Vec<String>| label_views(v@)) == self.attribute_label_lists(),
    {
        &self.attribute_labels
    }
}

/// The covering pairs of `v`, by increasing lower then upper position.
pub fn covering_edges(v: &Vec<(BitSet, BitSet)>) -> (r: Vec<(usize, usize)>)
    ensures
        lists_covers(pair_sets(v@), r@),
{
    let ghost p = pair_sets(v@);
    let n = v.len();
    let mut edges: Vec<(usize, usize)> = Vec::new();
    let mut i: usize = 0;
    while i < n
        invariant
            p == pair_sets(v@),
            n == v@.len(),
            i <= n,
            forall|k: int| 0 <= k < edges@.len() ==> covers(p, (#[trigger] edges@[k]).0 as int, edges@[k].1 as int) && edges@[k].0 < i,
            forall|a: int, b: int| 0 <= a < i && #[trigger] covers(p, a, b) ==> edges@.contains((a as usize, b as usize)),
            forall|k: int, l: int| 0 <= k < l < edges@.len() ==> #[trigger] edges@[k] != #[trigger] edges@[l],
        decreases n - i,
    {
        let mut j: usize = 0;
        while j < n
            invariant
                p == pair_sets(v@),
                n == v@.len(),
                i < n,
                j <= n,
                forall|k: int| 0 <= k < edges@.len() ==> covers(p, (#[trigger] edges@[k]).0 as int, edges@[k].1 as int) && (edges@[k].0 < i || (edges@[k].0 == i && edges@[k].1 < j)),
                forall|a: int, b: int| (0 <= a < i || (a == i && 0 <= b < j)) && #[trigger] covers(p, a, b) ==> edges@.contains((a as usize, b as usize)),
                forall|k: int, l: int| 0 <= k < l < edges@.len() ==> #[trigger] edges@[k] != #[trigger] edges@[l],
            decreases n - j,
        {
            let ghost ei = p[i as int].0;
            let ghost ej = p[j as int].0;
            proof {
                assert(p[i as int].0 == members(v@[i as int].0));
                assert(p[j as int].0 == members(v@[j as int].0));
            }
            if bs_is_subset(&v[i].0, &v[j].0) && !bs_eq(&v[i].0, &v[j].0) {
                let mut between = false;
                let mut k: usize = 0;
                while k < n
                    invariant
                        p == pair_sets(v@),
                        n == v@.len(),
                        i < n,
                        j < n,
                        k <= n,
                        ei == p[i as int].0,
                        ej == p[j as int].0,
                        between == exists|q: int| 0 <= q < k && ei.subset_of(#[trigger] p[q].0) && p[q].0.subset_of(ej) && p[q].0 != ei && p[q].0 != ej,
                    decreases n - k,
                {
                    proof { assert(p[k as int].0 == members(v@[k as int].0)); }
                    if bs_is_subset(&v[i].0, &v[k].0) && bs_is_subset(&v[k].0, &v[j].0)
                        && !bs_eq(&v[k].0, &v[i].0) && !bs_eq(&v[k].0, &v[j].0) {
                        between = true;
                    }
                    proof {
                        if !between {
                            assert forall|q: int| 0 <= q < k + 1 implies !(ei.subset_of(#[trigger] p[q].0) && p[q].0.subset_of(ej) && p[q].0 != ei && p[q].0 != ej) by {
                            }
                        }
                    }
                    k = k + 1;
                }
                if !between {
                    let ghost before = edges@;
                    edges.push((i, j));
                    proof {
                        assert(covers(p, i as int, j as int));
                        assert forall|k: int, l: int| 0 <= k < l < edges@.len() implies #[trigger] edges@[k] != #[trigger] edges@[l] by {
                            if l == before.len() {
                                assert(edges@[k] == before[k]);
                            } else {
                                assert(edges@[k] == before[k] && edges@[l] == before[l]);
                            }
                        }
                        assert forall|a: int, b: int| (0 <= a < i || (a == i && 0 <= b < j + 1)) && #[trigger] covers(p, a, b) implies edges@.contains((a as usize, b as usize)) by {
                            if a == i && b == j {
                                assert(edges@[before.len() as int] == (i, j));
                            } else {
                                assert(before.contains((a as usize, b as usize)));
                                let w = choose|w: int| 0 <= w < before.len() && before[w] == (a as usize, b as usize);
                                assert(edges@[w] == before[w]);
                            }
                        }
                        assert forall|k: int| 0 <= k < edges@.len() implies covers(p, (#[trigger] edges@[k]).0 as int, edges@[k].1 as int) && (edges@[k].0 < i || (edges@[k].0 == i && edges@[k].1 < j + 1)) by {
                            if k < before.len() {
                                assert(edges@[k] == before[k]);
                            }
                        }
                    }
                } else {
                    proof {
                        assert forall|a: int, b: int| (0 <= a < i || (a == i && 0 <= b < j + 1)) && #[trigger] covers(p, a, b) implies edges@.contains((a as usize, b as usize)) by {
                            if a == i && b == j {
                                let q = choose|q: int| 0 <= q < n && ei.subset_of(#[trigger] p[q].0) && p[q].0.subset_of(ej) && p[q].0 != ei && p[q].0 != ej;
                            }
                        }
                    }
                }
            } else {
                proof {
                    assert forall|a: int, b: int| (0 <= a < i || (a == i && 0 <= b < j + 1)) && #[trigger] covers(p, a, b) implies edges@.contains((a as usize, b as usize)) by {
                        if a == i && b == j {
                            assert(!covers(p, a, b));
                        }
                    }
                }
            }
            j = j + 1;
        }
        i = i + 1;
    }
    edges
}

impl FormalContext {
    /// The names of the objects whose closure is `e`, by increasing index.
    fn labelling_objects(&self, e: &BitSet, hulls: &Vec<BitSet>) -> (r: Vec<String>)
        requires
            self.wf(),
            hulls@.len() == self@.n_obj(),
            forall|g: int| 0 <= g < hulls@.len() ==> members(#[trigger] hulls@[g]) == self@.object_hull(set![g as usize]),
        ensures
            label_views(r@) == labels_at(self@.objects, sorted_below(objects_labelling(self@, members(*e)), self@.n_obj())),
    {
        let ghost c = self@;
        let n = self.n_objects();
        let mut r: Vec<String> = Vec::new();
        let mut g: usize = 0;
        while g < n
            invariant
                self.wf(),
                c == self@,
                n == c.n_obj(),
                g <= n,
                hulls@.len() == n,
                forall|h: int| 0 <= h < hulls@.len() ==> members(#[trigger] hulls@[h]) == c.object_hull(set![h as usize]),
                label_views(r@) == labels_at(c.objects, sorted_below(objects_labelling(c, members(*e)), g as nat)),
            decreases n - g,
        {
            proof { assert(members(hulls@[g as int]) == c.object_hull(set![g])); }
            if bs_eq(&hulls[g], e) {
                let names = self.objects();
                let name = names[g].clone();
                proof {
                    assert(label_views(names@)[g as int] == name@);
                }
                let ghost old_r = r@;
                r.push(name);
                proof {
                    let st = sorted_below(objects_labelling(c, members(*e)), g as nat);
                    assert(sorted_below(objects_labelling(c, members(*e)), (g + 1) as nat) == st.push(g));
                    assert(c.objects == label_views(names@));
                    assert(labels_at(c.objects, st.push(g)) =~= labels_at(c.objects, st).push(c.objects[g as int]));
                    assert(label_views(r@) =~= label_views(old_r).push(name@));
                }
            } else {
                proof {
                    assert(sorted_below(objects_labelling(c, members(*e)), (g + 1) as nat) == sorted_below(objects_labelling(c, members(*e)), g as nat));
                }
            }
            g = g + 1;
        }
        r
    }

    /// The attributes whose extent is `e`, by increasing index.
    fn labelling_attributes(&self, e: &BitSet, extents: &Vec<BitSet>) -> (r: Vec<String>)
        requires
            self.wf(),
            extents@.len() == self@.n_attr(),
            forall|m: int| 0 <= m < extents@.len() ==> members(#[trigger] extents@[m]) == self@.extent_of(set![m as usize]),
        ensures
            label_views(r@) == labels_at(self@.attributes, sorted_below(attributes_labelling(self@, members(*e)), self@.n_attr())),
    {
        let ghost c = self@;
        let n = self.n_attributes();
        let mut r: Vec<String> = Vec::new();
        let mut m: usize = 0;
        while m < n
            invariant
                self.wf(),
                c == self@,
                n == c.n_attr(),
                m <= n,
                extents@.len() == n,
                forall|h: int| 0 <= h < extents@.len() ==> members(#[trigger] extents@[h]) == c.extent_of(set![h as usize]),
                label_views(r@) == labels_at(c.attributes, sorted_below(attributes_labelling(c, members(*e)), m as nat)),
            decreases n - m,
        {
            proof { assert(members(extents@[m as int]) == c.extent_of(set![m])); }
            if bs_eq(&extents[m], e) {
                let names = self.attributes();
                let name = names[m].clone();
                proof {
                    assert(label_views(names@)[m as int] == name@);
                }
                let ghost old_r = r@;
                r.push(name);
                proof {
                    let st = sorted_below(attributes_labelling(c, members(*e)), m as nat);
                    assert(sorted_below(attributes_labelling(c, members(*e)), (m + 1) as nat) == st.push(m));
                    assert(c.attributes == label_views(names@));
                    assert(labels_at(c.attributes, st.push(m)) =~= labels_at(c.attributes, st).push(c.attributes[m as int]));
                    assert(label_views(r@) =~= label_views(old_r).push(name@));
                }
            } else {
                proof {
                    assert(sorted_below(attributes_labelling(c, members(*e)), (m + 1) as nat) == sorted_below(attributes_labelling(c, members(*e)), m as nat));
                }
            }
            m = m + 1;
        }
        r
    }

    /// The concept lattice as a diagram without a layout.
    pub fn lattice_diagram(&self) -> (r: LatticeDiagram)
        requires
            self.wf(),
        ensures
            r.describes(self@),
    {
        let ghost c = self@;
        let concepts = self.index_concepts();
        let edges = covering_edges(&concepts);
        let n_obj = self.n_objects();
        let n_attr = self.n_attributes();
        let mut hulls: Vec<BitSet> = Vec::new();
        let mut g: usize = 0;
        while g < n_obj
            invariant
                self.wf(),
                c == self@,
                n_obj == c.n_obj(),
                g <= n_obj,
                hulls@.len() == g,
                forall|h: int| 0 <= h < g ==> members(#[trigger] hulls@[h]) == c.object_hull(set![h as usize]),
            decreases n_obj - g,
        {
            let mut one = bs_new();
            bs_insert(&mut one, g);
            proof { assert(members(one) =~= set![g]); }
            hulls.push(self.index_object_hull(&one));
            g = g + 1;
        }
        let mut extents: Vec<BitSet> = Vec::new();
        let mut m: usize = 0;
        while m < n_attr
            invariant
                self.wf(),
                c == self@,
                n_attr == c.n_attr(),
                m <= n_attr,
                extents@.len() == m,
                forall|h: int| 0 <= h < m ==> members(#[trigger] extents@[h]) == c.extent_of(set![h as usize]),
            decreases n_attr - m,
        {
            let mut one = bs_new();
            bs_insert(&mut one, m);
            proof { assert(members(one) =~= set![m]); }
            extents.push(self.index_extent(&one));
            m = m + 1;
        }
        let mut object_labels: Vec<Vec<String>> = Vec::new();
        let mut attribute_labels: Vec<Vec<String>> = Vec::new();
        let mut i: usize = 0;
        while i < concepts.len()
            invariant
                self.wf(),
                c == self@,
                i <= concepts@.len(),
                object_labels@.len() == i,
                attribute_labels@.len() == i,
                hulls@.len() == c.n_obj(),
                forall|h: int| 0 <= h < hulls@.len() ==> members(#[trigger] hulls@[h]) == c.object_hull(set![h as usize]),
                extents@.len() == c.n_attr(),
                forall|h: int| 0 <= h < extents@.len() ==> members(#[trigger] extents@[h]) == c.extent_of(set![h as usize]),
                forall|k: int| 0 <= k < i ==> #[trigger] label_views(object_labels@[k]@) == labels_at(c.objects, sorted_below(objects_labelling(c, pair_sets(concepts@)[k].0), c.n_obj())),
                forall|k: int| 0 <= k < i ==> #[trigger] label_views(attribute_labels@[k]@) == labels_at(c.attributes, sorted_below(attributes_labelling(c, pair_sets(concepts@)[k].0), c.n_attr())),
            decreases concepts@.len() - i,
        {
            let ol = self.labelling_objects(&concepts[i].0, &hulls);
            let al = self.labelling_attributes(&concepts[i].0, &extents);
            let ghost ob = object_labels@;
            let ghost ab = attribute_labels@;
            object_labels.push(ol);
            attribute_labels.push(al);
            proof {
                assert(pair_sets(concepts@)[i as int].0 == members(concepts@[i as int].0));
                assert forall|k: int| 0 <= k < i + 1 implies #[trigger] label_views(object_labels@[k]@) == labels_at(c.objects, sorted_below(objects_labelling(c, pair_sets(concepts@)[k].0), c.n_obj())) by {
                    if k < i {
                        assert(object_labels@[k] == ob[k]);
                    }
                }
                assert forall|k: int| 0 <= k < i + 1 implies #[trigger] label_views(attribute_labels@[k]@) == labels_at(c.attributes, sorted_below(attributes_labelling(c, pair_sets(concepts@)[k].0), c.n_attr())) by {
                    if k < i {
                        assert(attribute_labels@[k] == ab[k]);
                    }
                }
            }
            i = i + 1;
        }
        let ghost cs = concepts@;
        let ghost obl = object_labels@;
        let ghost atl = attribute_labels@;
        let r = LatticeDiagram { concepts, edges, object_labels, attribute_labels };
        proof {
            assert(r.nodes() == pair_sets(cs));
            assert(lists_all_concepts(c, r.nodes()));
            assert(lists_covers(r.nodes(), r.edge_list()));
            assert(r.object_label_lists().len() == r.nodes().len());
            assert(r.attribute_label_lists().len() == r.nodes().len());
            assert forall|k: int| 0 <= k < r.nodes().len() implies #[trigger] r.object_label_lists()[k] == labels_at(c.objects, sorted_below(objects_labelling(c, r.nodes()[k].0), c.n_obj())) by {
                assert(r.object_label_lists()[k] == label_views(obl[k]@));
                assert(r.nodes()[k] == pair_sets(cs)[k]);
            }
            assert forall|k: int| 0 <= k < r.nodes().len() implies #[trigger] r.attribute_label_lists()[k] == labels_at(c.attributes, sorted_below(attributes_labelling(c, r.nodes()[k].0), c.n_attr())) by {
                assert(r.attribute_label_lists()[k] == label_views(atl[k]@));
                assert(r.nodes()[k] == pair_sets(cs)[k]);
            }
            assert(r.describes(c));
        }
        r
    }
}

/// The nodes of a diagram of a context are its concepts in the order in
/// which they are listed: any listing of all concepts in lectic order of
/// their intents.
pub proof fn law_diagram_nodes_are_the_concepts(c: ContextView, d: LatticeDiagram, v: Seq<(Set<usize>, Set<usize>)>)
    requires
        d.describes(c),
        lists_all_concepts(c, v),
        sorted_by_intent(v),
    ensures
        d.nodes() == v,
{
    law_concept_listing_unique(c, d.nodes(), v);
}

/// Every object labels exactly one node of a diagram: the node whose extent
/// is the closure of that object.
pub proof fn law_each_object_labels_one_node(c: ContextView, d: LatticeDiagram, g: usize)
    requires
        d.describes(c),
        g < c.n_obj(),
    ensures
        exists|i: int| 0 <= i < d.nodes().len() && #[trigger] objects_labelling(c, d.nodes()[i].0).contains(g),
        forall|i: int, j: int| 0 <= i < d.nodes().len() && 0 <= j < d.nodes().len()
            && #[trigger] objects_labelling(c, d.nodes()[i].0).contains(g) && #[trigger] objects_labelling(c, d.nodes()[j].0).contains(g) ==> i == j,
{
    let v = d.nodes();
    let b = c.intent_of(set![g]);
    let e = c.extent_of(b);
    lemma_intent_closed(c, set![g]);
    assert(c.is_concept(e, b));
    assert(v.contains((e, b)));
    let i = choose|i: int| 0 <= i < v.len() && v[i] == (e, b);
    assert(objects_labelling(c, v[i].0).contains(g));
    assert forall|i: int, j: int| 0 <= i < v.len() && 0 <= j < v.len()
        && #[trigger] objects_labelling(c, v[i].0).contains(g) && #[trigger] objects_labelling(c, v[j].0).contains(g) implies i == j by {
        assert(c.is_concept(v[i].0, v[i].1));
        assert(c.is_concept(v[j].0, v[j].1));
        assert(v[i].0 == v[j].0);
        if i < j {
            assert(v[i].1 != v[j].1);
        } else if j < i {
            assert(v[j].1 != v[i].1);
        }
    }
}

/// Every attribute labels exactly one node of a diagram: the node whose
/// extent holds the objects having that attribute.
pub proof fn law_each_attribute_labels_one_node(c: ContextView, d: LatticeDiagram, m: usize)
    requires
        d.describes(c),
        m < c.n_attr(),
    ensures
        exists|i: int| 0 <= i < d.nodes().len() && #[trigger] attributes_labelling(c, d.nodes()[i].0).contains(m),
        forall|i: int, j: int| 0 <= i < d.nodes().len() && 0 <= j < d.nodes().len()
            && #[trigger] attributes_labelling(c, d.nodes()[i].0).contains(m) && #[trigger] attributes_labelling(c, d.nodes()[j].0).contains(m) ==> i == j,
{
    let v = d.nodes();
    let e = c.extent_of(set![m]);
    let b = c.intent_of(e);
    lemma_extent_closed(c, set![m]);
    assert(c.is_concept(e, b));
    assert(v.contains((e, b)));
    let i = choose|i: int| 0 <= i < v.len() && v[i] == (e, b);
    assert(attributes_labelling(c, v[i].0).contains(m));
    assert forall|i: int, j: int| 0 <= i < v.len() && 0 <= j < v.len()
        && #[trigger] attributes_labelling(c, v[i].0).contains(m) && #[trigger] attributes_labelling(c, v[j].0).contains(m) implies i == j by {
        assert(c.is_concept(v[i].0, v[i].1));
        assert(c.is_concept(v[j].0, v[j].1));
        assert(v[i].0 == v[j].0);
        if i < j {
            assert(v[i].1 != v[j].1);
        } else if j < i {
            assert(v[j].1 != v[i].1);
        }
    }
}

/// A character that SVG text must escape: `&`, `<`, `>` or `"`.
pub open spec fn markup_char(ch: char) -> bool {
    ch == '&' || ch == '<' || ch == '>' || ch == '"'
}

/// Escaping works character by character: the escape of two texts one after
/// the other is the escape of the first followed by that of the second.
pub proof fn law_escape_concatenates(s: Seq<char>, t: Seq<char>)
    ensures
        escape_html(s + t) == escape_html(s) + escape_html(t),
    decreases t.len(),
{
    if t.len() == 0 {
        assert(s + t =~= s);
        assert(escape_html(t) =~= Seq::<char>::empty());
        assert(escape_html(s) + escape_html(t) =~= escape_html(s));
    } else {
        law_escape_concatenates(s, t.drop_last());
        assert((s + t).drop_last() =~= s + t.drop_last());
        assert((s + t).last() == t.last());
        assert(escape_html(s + t) =~= escape_html(s) + escape_html(t));
    }
}

/// Escaping leaves a text without `&`, `<`, `>` and `"` as it is: every
/// other character, whatever its code, stands for itself.
pub proof fn law_escape_keeps_plain_text(s: Seq<char>)
    requires
        forall|i: int| 0 <= i < s.len() ==> !markup_char(#[trigger] s[i]),
    ensures
        escape_html(s) == s,
    decreases s.len(),
{
    if s.len() > 0 {
        let f = s.drop_last();
        assert forall|i: int| 0 <= i < f.len() implies !markup_char(#[trigger] f[i]) by {
            assert(f[i] == s[i]);
        }
        law_escape_keeps_plain_text(f);
        assert(!markup_char(s[s.len() - 1]));
        assert(escape_html(s) =~= f.push(s.last()));
        assert(f.push(s.last()) =~= s);
    }
}

/// The escaped text holds no `<`, `>` or `"`, so it cannot end the text or
/// attribute of an SVG element, and it is never shorter than the text.
pub proof fn law_escape_is_safe(s: Seq<char>)
    ensures
        forall|i: int| 0 <= i < escape_html(s).len() ==> {
            let ch = #[trigger] escape_html(s)[i];
            ch != '<' && ch != '>' && ch != '"'
        },
        escape_html(s).len() >= s.len(),
    decreases s.len(),
{
    if s.len() > 0 {
        let f = s.drop_last();
        law_escape_is_safe(f);
        let e = escape_html(s);
        let ef = escape_html(f);
        let tail = escape_char(s.last());
        assert(e == ef + tail);
        assert forall|i: int| 0 <= i < e.len() implies {
            let ch = #[trigger] e[i];
            ch != '<' && ch != '>' && ch != '"'
        } by {
            if i < ef.len() {
                assert(e[i] == ef[i]);
            } else {
                assert(e[i] == tail[i - ef.len()]);
            }
        }
    }
}

/// The text that SVG shows for escaped text `t`: each character reference
/// `&amp;`, `&lt;`, `&gt;` and `&quot;` read as its character, from the front.
pub open spec fn unescape_html(t: Seq<char>) -> Seq<char>
    decreases t.len(),
{
    if t.len() == 0 {
        Seq::empty()
    } else if t.len() >= 5 && t.take(5) == seq!['&', 'a', 'm', 'p', ';'] {
        seq!['&'] + unescape_html(t.skip(5))
    } else if t.len() >= 4 && t.take(4) == seq!['&', 'l', 't', ';'] {
        seq!['<'] + unescape_html(t.skip(4))
    } else if t.len() >= 4 && t.take(4) == seq!['&', 'g', 't', ';'] {
        seq!['>'] + unescape_html(t.skip(4))
    } else if t.len() >= 6 && t.take(6) == seq!['&', 'q', 'u', 'o', 't', ';'] {
        seq!['"'] + unescape_html(t.skip(6))
    } else {
        seq![t[0]] + unescape_html(t.skip(1))
    }
}

/// Reading the escape of one character followed by more escaped text gives
/// that character first.
proof fn lemma_unescape_front(ch: char, rest: Seq<char>)
    ensures
        unescape_html(escape_char(ch) + rest) == seq![ch] + unescape_html(rest),
{
    let t = escape_char(ch) + rest;
    let e = escape_char(ch);
    assert(t.skip(e.len() as int) =~= rest);
    assert(t.take(e.len() as int) =~= e);
    if ch == '&' {
        assert(t.take(5) =~= seq!['&', 'a', 'm', 'p', ';']);
    } else if ch == '<' {
        assert(t.take(4) =~= seq!['&', 'l', 't', ';']);
        assert(t[1] == 'l');
        if t.len() >= 5 {
            assert(t.take(5)[1] == t[1]);
            assert(t.take(5) != seq!['&', 'a', 'm', 'p', ';']);
        }
    } else if ch == '>' {
        assert(t.take(4) =~= seq!['&', 'g', 't', ';']);
        assert(t[1] == 'g');
        if t.len() >= 5 {
            assert(t.take(5)[1] == t[1]);
            assert(t.take(5) != seq!['&', 'a', 'm', 'p', ';']);
        }
        assert(t.take(4)[1] == 'g');
        assert(t.take(4) != seq!['&', 'l', 't', ';']);
    } else if ch == '"' {
        assert(t.take(6) =~= seq!['&', 'q', 'u', 'o', 't', ';']);
        assert(t.take(5)[1] == 'q');
        assert(t.take(5) != seq!['&', 'a', 'm', 'p', ';']);
        assert(t.take(4)[1] == 'q');
        assert(t.take(4) != seq!['&', 'l', 't', ';']);
        assert(t.take(4) != seq!['&', 'g', 't', ';']);
    } else {
        assert(t[0] == ch);
        if t.len() >= 5 {
            assert(t.take(5)[0] == ch);
            assert(t.take(5) != seq!['&', 'a', 'm', 'p', ';']);
        }
        if t.len() >= 4 {
            assert(t.take(4)[0] == ch);
            assert(t.take(4) != seq!['&', 'l', 't', ';']);
            assert(t.take(4) != seq!['&', 'g', 't', ';']);
        }
        if t.len() >= 6 {
            assert(t.take(6)[0] == ch);
            assert(t.take(6) != seq!['&', 'q', 'u', 'o', 't', ';']);
        }
        assert(t.skip(1) =~= rest);
    }
}

/// Escaping loses nothing: reading the escaped text back, each character
/// reference as its character, gives the text itself.
pub proof fn law_unescape_escape(s: Seq<char>)
    ensures
        unescape_html(escape_html(s)) == s,
    decreases s.len(),
{
    if s.len() > 0 {
        let rest = s.skip(1);
        assert(s =~= seq![s[0]] + rest);
        law_escape_concatenates(seq![s[0]], rest);
        assert(seq![s[0]].drop_last() =~= Seq::<char>::empty());
        assert(escape_html(Seq::<char>::empty()) =~= Seq::<char>::empty());
        assert(seq![s[0]].last() == s[0]);
        assert(escape_html(seq![s[0]]) =~= escape_char(s[0]));
        lemma_unescape_front(s[0], escape_html(rest));
        law_unescape_escape(rest);
        assert(seq![s[0]] + rest =~= s);
    } else {
        assert(escape_html(s) =~= Seq::<char>::empty());
    }
}

} // verus!
