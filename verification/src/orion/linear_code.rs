//! The Orion linear code: a Spielman-style code built from sparse bipartite
//! expander graphs, each of which adds up selected message symbols.

use crate::field::{lemma_congruent_add, lemma_reduced, lin, values, Field};
use crate::orion::utils::{OrionPCSError, OrionResult, ORION_LENGTH_THRESHOLD_G0S};
use vstd::arithmetic::div_mod::*;
use vstd::prelude::*;
use rand::rngs::StdRng;

verus! {

/// The seeded random generator of the `rand` crate that graph sampling draws from.
#[verifier::external_type_specification]
#[verifier::external_body]
pub struct ExStdRng(rand::rngs::StdRng);

/// A directed edge, given by the index of its left vertex.
pub type DirectedEdge = usize;

/// The left vertices adjacent to one right vertex.
pub type DirectedNeighboring = Vec<DirectedEdge>;

/// A bipartite graph from `l_vertices_size` left vertices to
/// `r_vertices_size` right vertices; `neighborings[j]` lists the left vertices
/// adjacent to right vertex `j`.
#[derive(Clone, Debug)]
pub struct OrionExpanderGraph {
    pub l_vertices_size: usize,
    pub r_vertices_size: usize,
    pub neighborings: Vec<DirectedNeighboring>,
}

/// The sum of `buf[offset + e]` over the edges `e` of `ns`.
pub open spec fn neighbor_sum(buf: Seq<int>, offset: int, ns: Seq<usize>) -> int
    decreases ns.len(),
{
    if ns.len() == 0 {
        0
    } else {
        neighbor_sum(buf, offset, ns.drop_last()) + buf[offset + ns.last() as int]
    }
}

/// Every edge of the right vertices that the multiplication visits points at a
/// left vertex.
pub open spec fn edges_valid(g: OrionExpanderGraph) -> bool {
    forall|i: int, t: int|
        0 <= i < g.r_vertices_size && 0 <= i < g.neighborings@.len() && 0 <= t
            < g.neighborings@[i]@.len() ==> (#[trigger] g.neighborings@[i]@[t]) < g.l_vertices_size
}

/// The number of times `j` occurs in `s`.
pub open spec fn occurrences(s: Seq<usize>, j: usize) -> nat
    decreases s.len(),
{
    if s.len() == 0 {
        0
    } else {
        occurrences(s.drop_last(), j) + if s.last() == j {
            1nat
        } else {
            0nat
        }
    }
}

/// The left vertices among the first `k` that picked right vertex `j`, in
/// increasing order, each as often as its sample holds `j`.
pub open spec fn incident_lefts(samples: Seq<Seq<usize>>, j: usize, k: int) -> Seq<usize>
    decreases k,
{
    if k <= 0 {
        Seq::empty()
    } else {
        incident_lefts(samples, j, k - 1) + Seq::new(occurrences(samples[k - 1], j), |t: int| (k - 1) as usize)
    }
}

/// The contents of a list of samples.
pub open spec fn sample_seqs(samples: Seq<Vec<usize>>) -> Seq<Seq<usize>> {
    Seq::new(samples.len(), |i: int| samples[i]@)
}

/// Every index of `s` is below `bound`, and none occurs twice.
pub open spec fn distinct_below(s: Seq<usize>, bound: int) -> bool {
    &&& forall|i: int| 0 <= i < s.len() ==> (#[trigger] s[i]) < bound
    &&& forall|i: int, k: int| 0 <= i < k < s.len() ==> s[i] != s[k]
}

/// `samples` picks, for each of `l` left vertices, `d` distinct right
/// vertices below `r`.
pub open spec fn samples_valid(samples: Seq<Seq<usize>>, l: int, r: int, d: int) -> bool {
    &&& samples.len() == l
    &&& forall|i: int| 0 <= i < l ==> (#[trigger] samples[i]).len() == d && distinct_below(samples[i], r)
}

/// Every right vertex of `g` is adjacent to the left vertices that picked it
/// in `samples`.
pub open spec fn built_from(g: OrionExpanderGraph, samples: Seq<Seq<usize>>) -> bool {
    &&& g.neighborings@.len() == g.r_vertices_size
    &&& forall|j: int|
        0 <= j < g.r_vertices_size ==> (#[trigger] g.neighborings@[j])@ == incident_lefts(
            samples,
            j as usize,
            g.l_vertices_size as int,
        )
}

/// `g` is a random left-`d`-regular graph: each left vertex picked `d`
/// distinct right vertices.
pub open spec fn sampled_graph(g: OrionExpanderGraph, d: int) -> bool {
    exists|samples: Seq<Seq<usize>>|
        samples_valid(samples, g.l_vertices_size as int, g.r_vertices_size as int, d) && #[trigger] built_from(
            g,
            samples,
        )
}

proof fn lemma_incident_lefts_below(samples: Seq<Seq<usize>>, j: usize, k: int)
    ensures
        forall|t: int|
            0 <= t < incident_lefts(samples, j, k).len() ==> (#[trigger] incident_lefts(samples, j, k)[t]) < k,
    decreases k,
{
    if k > 0 {
        lemma_incident_lefts_below(samples, j, k - 1);
        let prev = incident_lefts(samples, j, k - 1);
        let cur = incident_lefts(samples, j, k);
        assert forall|t: int| 0 <= t < cur.len() implies (#[trigger] cur[t]) < k by {
            if t < prev.len() {
                assert(cur[t] == prev[t]);
            }
        }
    }
}

/// Calls `rand::seq::index::sample`, whose documentation promises exactly
/// `amount` distinct indices from `0..length` and which panics when `amount`
/// exceeds `length`. Which indices come out, and in which order, depends on
/// the generator's state and is left unsaid.
#[verifier::external_body]
fn sample_distinct_indices(rng: &mut StdRng, length: usize, amount: usize) -> (r: Vec<usize>)
    requires
        amount <= length,
    ensures
        r@.len() == amount,
        distinct_below(r@, length as int),
{
    rand::seq::index::sample(rng, length, amount).into_vec()
}

impl OrionExpanderGraph {
    /// The graph in which each right vertex is adjacent to the left vertices
    /// whose entry of `samples` holds it.
    pub fn from_samples(l_vertices_size: usize, r_vertices_size: usize, samples: &Vec<Vec<usize>>) -> (g: Self)
        requires
            samples@.len() == l_vertices_size,
            forall|i: int, t: int|
                0 <= i < samples@.len() && 0 <= t < samples@[i]@.len() ==> (#[trigger] samples@[i]@[t])
                    < r_vertices_size,
        ensures
            g.l_vertices_size == l_vertices_size,
            g.r_vertices_size == r_vertices_size,
            built_from(g, sample_seqs(samples@)),
            edges_valid(g),
    {
        let ghost ss = sample_seqs(samples@);
        let mut nb: Vec<Vec<usize>> = Vec::new();
        let mut j: usize = 0;
        while j < r_vertices_size
            invariant
                j <= r_vertices_size,
                nb@.len() == j,
                forall|k: int| 0 <= k < j ==> (#[trigger] nb@[k])@ == Seq::<usize>::empty(),
            decreases r_vertices_size - j,
        {
            nb.push(Vec::new());
            j = j + 1;
        }
        let mut i: usize = 0;
        while i < l_vertices_size
            invariant
                i <= l_vertices_size,
                samples@.len() == l_vertices_size,
                ss == sample_seqs(samples@),
                forall|a: int, t: int|
                    0 <= a < samples@.len() && 0 <= t < samples@[a]@.len() ==> (#[trigger] samples@[a]@[t])
                        < r_vertices_size,
                nb@.len() == r_vertices_size,
                forall|k: int| 0 <= k < r_vertices_size ==> (#[trigger] nb@[k])@ == incident_lefts(ss, k as usize, i as int),
            decreases l_vertices_size - i,
        {
            let s = &samples[i];
            proof {
                assert(ss[i as int] == s@);
                assert(s@.take(0) =~= Seq::<usize>::empty());
                assert forall|k: int| 0 <= k < r_vertices_size implies (#[trigger] nb@[k])@ == incident_lefts(
                    ss,
                    k as usize,
                    i as int,
                ) + Seq::new(occurrences(s@.take(0), k as usize), |u: int| i) by {
                    assert(incident_lefts(ss, k as usize, i as int) + Seq::new(occurrences(s@.take(0), k as usize), |u: int| i)
                        =~= incident_lefts(ss, k as usize, i as int));
                }
            }
            let mut t: usize = 0;
            while t < s.len()
                invariant
                    t <= s@.len(),
                    i < l_vertices_size,
                    samples@.len() == l_vertices_size,
                    s@ == samples@[i as int]@,
                    ss == sample_seqs(samples@),
                    forall|a: int, u: int|
                        0 <= a < samples@.len() && 0 <= u < samples@[a]@.len() ==> (#[trigger] samples@[a]@[u])
                            < r_vertices_size,
                    nb@.len() == r_vertices_size,
                    forall|k: int|
                        0 <= k < r_vertices_size ==> (#[trigger] nb@[k])@ == incident_lefts(ss, k as usize, i as int)
                            + Seq::new(occurrences(s@.take(t as int), k as usize), |u: int| i),
                decreases s@.len() - t,
            {
                let idx = s[t];
                proof {
                    assert(samples@[i as int]@[t as int] < r_vertices_size);
                }
                let ghost before = nb@;
                nb[idx].push(i);
                proof {
                    assert(s@.take(t + 1).drop_last() =~= s@.take(t as int));
                    assert forall|k: int| 0 <= k < r_vertices_size implies (#[trigger] nb@[k])@ == incident_lefts(
                        ss,
                        k as usize,
                        i as int,
                    ) + Seq::new(occurrences(s@.take(t + 1), k as usize), |u: int| i) by {
                        let a = incident_lefts(ss, k as usize, i as int);
                        if k == idx {
                            assert(nb@[k]@ =~= a + Seq::new(occurrences(s@.take(t + 1), k as usize), |u: int| i));
                        } else {
                            assert(nb@[k] == before[k]);
                        }
                    }
                }
                t = t + 1;
            }
            proof {
                assert(s@.take(s@.len() as int) =~= s@);
                assert forall|k: int| 0 <= k < r_vertices_size implies (#[trigger] nb@[k])@ == incident_lefts(
                    ss,
                    k as usize,
                    i + 1,
                ) by {
                    assert(ss[i as int] == s@);
                    assert(Seq::new(occurrences(ss[i as int], k as usize), |u: int| (i + 1 - 1) as usize)
                        =~= Seq::new(occurrences(s@, k as usize), |u: int| i));
                }
            }
            i = i + 1;
        }
        let g = OrionExpanderGraph { l_vertices_size, r_vertices_size, neighborings: nb };
        proof {
            assert forall|k: int, t: int|
                0 <= k < g.r_vertices_size && 0 <= k < g.neighborings@.len() && 0 <= t
                    < g.neighborings@[k]@.len() implies (#[trigger] g.neighborings@[k]@[t]) < g.l_vertices_size by {
                lemma_incident_lefts_below(ss, k as usize, l_vertices_size as int);
            }
        }
        g
    }

    /// A random bipartite graph in which each of the `l_vertices_size` left
    /// vertices is adjacent to `expanding_degree` distinct right vertices,
    /// drawn from `rng`.
    pub fn new(l_vertices_size: usize, r_vertices_size: usize, expanding_degree: usize, rng: &mut StdRng) -> (g: Self)
        requires
            expanding_degree <= r_vertices_size,
        ensures
            g.l_vertices_size == l_vertices_size,
            g.r_vertices_size == r_vertices_size,
            edges_valid(g),
            sampled_graph(g, expanding_degree as int),
    {
        let mut samples: Vec<Vec<usize>> = Vec::new();
        let mut i: usize = 0;
        while i < l_vertices_size
            invariant
                i <= l_vertices_size,
                expanding_degree <= r_vertices_size,
                samples@.len() == i,
                forall|a: int|
                    0 <= a < i ==> (#[trigger] samples@[a])@.len() == expanding_degree && distinct_below(
                        samples@[a]@,
                        r_vertices_size as int,
                    ),
            decreases l_vertices_size - i,
        {
            let s = sample_distinct_indices(rng, r_vertices_size, expanding_degree);
            samples.push(s);
            i = i + 1;
        }
        let ghost ss = sample_seqs(samples@);
        proof {
            assert forall|a: int, t: int|
                0 <= a < samples@.len() && 0 <= t < samples@[a]@.len() implies (#[trigger] samples@[a]@[t])
                < r_vertices_size by {
                assert(distinct_below(samples@[a]@, r_vertices_size as int));
            }
        }
        let g = Self::from_samples(l_vertices_size, r_vertices_size, &samples);
        proof {
            assert(samples_valid(ss, l_vertices_size as int, r_vertices_size as int, expanding_degree as int)) by {
                assert forall|a: int| 0 <= a < l_vertices_size implies (#[trigger] ss[a]).len() == expanding_degree
                    && distinct_below(ss[a], r_vertices_size as int) by {
                    assert(ss[a] == samples@[a]@);
                }
            }
            assert(built_from(g, ss));
        }
        g
    }

    /// Multiplies the graph's adjacency matrix with `l_vertices`: right vertex
    /// `j` receives the sum of its left neighbours.
    pub fn expander_mul<F: Field>(&self, l_vertices: &[F], r_vertices: &mut [F]) -> (res: OrionResult<()>)
        requires
            l_vertices@.len() == self.l_vertices_size && old(r_vertices)@.len() == self.r_vertices_size
                ==> edges_valid(*self),
        ensures
            final(r_vertices)@.len() == old(r_vertices)@.len(),
            !(l_vertices@.len() == self.l_vertices_size && old(r_vertices)@.len() == self.r_vertices_size)
                ==> res == Err::<(), OrionPCSError>(OrionPCSError::ParameterUnmatchError) && final(r_vertices)@
                == old(r_vertices)@,
            (l_vertices@.len() == self.l_vertices_size && old(r_vertices)@.len() == self.r_vertices_size)
                ==> res is Ok && forall|j: int|
                0 <= j < old(r_vertices)@.len() ==> if j < self.neighborings@.len() {
                    #[trigger] final(r_vertices)@[j].value() == neighbor_sum(
                        values(l_vertices@),
                        0,
                        self.neighborings@[j]@,
                    ) % F::modulus()
                } else {
                    final(r_vertices)@[j] == old(r_vertices)@[j]
                },
    {
        if l_vertices.len() != self.l_vertices_size || r_vertices.len() != self.r_vertices_size {
            return Err(OrionPCSError::ParameterUnmatchError);
        }
        let ghost m = F::modulus();
        let ghost l = values(l_vertices@);
        let ghost old_r = r_vertices@;
        let n = if r_vertices.len() < self.neighborings.len() {
            r_vertices.len()
        } else {
            self.neighborings.len()
        };
        let mut j: usize = 0;
        while j < n
            invariant
                j <= n,
                n <= r_vertices@.len(),
                n <= self.neighborings@.len(),
                r_vertices@.len() == old_r.len(),
                r_vertices@.len() == self.r_vertices_size,
                l_vertices@.len() == self.l_vertices_size,
                edges_valid(*self),
                m == F::modulus(),
                l == values(l_vertices@),
                forall|k: int| j <= k < r_vertices@.len() ==> #[trigger] r_vertices@[k] == old_r[k],
                forall|k: int|
                    0 <= k < j ==> #[trigger] r_vertices@[k].value() == neighbor_sum(
                        l,
                        0,
                        self.neighborings@[k]@,
                    ) % m,
            decreases n - j,
        {
            let ns = &self.neighborings[j];
            let mut acc = F::zero();
            proof {
                F::lemma_value_range(acc);
                lemma_reduced(0, m);
                assert(ns@.subrange(0, 0) =~= Seq::<usize>::empty());
            }
            let mut t: usize = 0;
            while t < ns.len()
                invariant
                    t <= ns@.len(),
                    ns@ == self.neighborings@[j as int]@,
                    j < self.r_vertices_size,
                    j < self.neighborings@.len(),
                    l_vertices@.len() == self.l_vertices_size,
                    edges_valid(*self),
                    m == F::modulus(),
                    l == values(l_vertices@),
                    acc.value() == neighbor_sum(l, 0, ns@.subrange(0, t as int)) % m,
                decreases ns@.len() - t,
            {
                let e = ns[t];
                proof {
                    assert(ns@[t as int] == self.neighborings@[j as int]@[t as int]);
                }
                let next = acc.plus(&l_vertices[e]);
                proof {
                    let s = ns@.subrange(0, t + 1);
                    assert(s.drop_last() =~= ns@.subrange(0, t as int));
                    assert(s.last() == e);
                    F::lemma_value_range(l_vertices@[e as int]);
                    lemma_mod_twice(neighbor_sum(l, 0, ns@.subrange(0, t as int)), m);
                    lemma_mod_twice(l[e as int], m);
                    lemma_congruent_add(
                        acc.value(),
                        neighbor_sum(l, 0, ns@.subrange(0, t as int)),
                        l_vertices@[e as int].value(),
                        l[e as int],
                        m,
                    );
                }
                acc = next;
                t = t + 1;
            }
            proof {
                assert(ns@.subrange(0, ns@.len() as int) =~= ns@);
            }
            r_vertices[j] = acc;
            j = j + 1;
        }
        Ok(())
    }
}

/// An expander graph placed inside a codeword buffer: it reads the symbols at
/// `input_starts..output_starts` and writes the symbols at
/// `output_starts..=output_ends`.
#[derive(Clone, Debug)]
pub struct OrionExpanderGraphPositioned {
    pub graph: OrionExpanderGraph,
    pub input_starts: usize,
    pub output_starts: usize,
    pub output_ends: usize,
}

/// The graph's input and output ranges lie inside a buffer of length `n`.
pub open spec fn positions_valid(g: OrionExpanderGraphPositioned, n: int) -> bool {
    &&& g.input_starts <= g.output_starts
    &&& g.output_starts <= g.output_ends + 1
    &&& g.output_ends + 1 <= n
}

/// The graph's vertex counts match the lengths of its input and output ranges.
pub open spec fn sizes_match(g: OrionExpanderGraphPositioned) -> bool {
    &&& g.graph.l_vertices_size == g.output_starts - g.input_starts
    &&& g.graph.r_vertices_size == g.output_ends + 1 - g.output_starts
}

/// Position `k` lies in the graph's output range.
pub open spec fn in_output(g: OrionExpanderGraphPositioned, k: int) -> bool {
    g.output_starts <= k <= g.output_ends
}

/// The symbol written at output `i` of the graph: the sum of its neighbours
/// in the input range, or, for an output without a neighbour list, whatever
/// the scratch buffer held there.
pub open spec fn graph_output(buf: Seq<int>, scr: Seq<int>, g: OrionExpanderGraphPositioned, i: int) -> int {
    if i < g.graph.neighborings@.len() {
        neighbor_sum(buf, g.input_starts as int, g.graph.neighborings@[i]@)
    } else {
        scr[g.output_starts + i]
    }
}

/// The buffer after the graph has written its outputs.
pub open spec fn apply_buffer(buf: Seq<int>, scr: Seq<int>, g: OrionExpanderGraphPositioned) -> Seq<int> {
    Seq::new(
        buf.len(),
        |k: int|
            if in_output(g, k) {
                graph_output(buf, scr, g, k - g.output_starts)
            } else {
                buf[k]
            },
    )
}

/// The scratch buffer after the graph has written its outputs.
pub open spec fn apply_scratch(buf: Seq<int>, scr: Seq<int>, g: OrionExpanderGraphPositioned) -> Seq<int> {
    Seq::new(
        scr.len(),
        |k: int|
            if in_output(g, k) {
                graph_output(buf, scr, g, k - g.output_starts)
            } else {
                scr[k]
            },
    )
}

proof fn lemma_neighbor_sum_congruent(a: Seq<int>, b: Seq<int>, offset: int, ns: Seq<usize>, m: int)
    requires
        m > 0,
        forall|t: int| 0 <= t < ns.len() ==> (#[trigger] a[offset + ns[t] as int]) % m == b[offset + ns[t] as int] % m,
    ensures
        neighbor_sum(a, offset, ns) % m == neighbor_sum(b, offset, ns) % m,
    decreases ns.len(),
{
    if ns.len() > 0 {
        let ns2 = ns.drop_last();
        assert forall|t: int| 0 <= t < ns2.len() implies (#[trigger] a[offset + ns2[t] as int]) % m == b[offset
            + ns2[t] as int] % m by {
            assert(ns2[t] == ns[t]);
        }
        lemma_neighbor_sum_congruent(a, b, offset, ns2, m);
        assert(a[offset + ns[ns.len() - 1] as int] % m == b[offset + ns[ns.len() - 1] as int] % m);
        lemma_congruent_add(
            neighbor_sum(a, offset, ns2),
            neighbor_sum(b, offset, ns2),
            a[offset + ns.last() as int],
            b[offset + ns.last() as int],
            m,
        );
    }
}

/// Reading a graph's inputs through congruent buffers gives congruent outputs.
proof fn lemma_apply_congruent(
    a: Seq<int>,
    sa: Seq<int>,
    b: Seq<int>,
    sb: Seq<int>,
    g: OrionExpanderGraphPositioned,
    m: int,
)
    requires
        m > 0,
        a.len() == b.len(),
        sa.len() == sb.len(),
        sa.len() == a.len(),
        positions_valid(g, a.len() as int),
        sizes_match(g),
        edges_valid(g.graph),
        forall|k: int| 0 <= k < a.len() ==> #[trigger] a[k] % m == b[k] % m,
        forall|k: int| 0 <= k < sa.len() ==> #[trigger] sa[k] % m == sb[k] % m,
    ensures
        forall|k: int|
            0 <= k < a.len() ==> #[trigger] apply_buffer(a, sa, g)[k] % m == apply_buffer(b, sb, g)[k] % m,
        forall|k: int|
            0 <= k < a.len() ==> #[trigger] apply_scratch(a, sa, g)[k] % m == apply_scratch(b, sb, g)[k] % m,
{
    assert forall|i: int|
        0 <= i < g.graph.r_vertices_size implies #[trigger] graph_output(a, sa, g, i) % m == graph_output(
        b,
        sb,
        g,
        i,
    ) % m by {
        if i < g.graph.neighborings@.len() {
            let ns = g.graph.neighborings@[i]@;
            assert forall|t: int| 0 <= t < ns.len() implies (#[trigger] a[g.input_starts + ns[t] as int]) % m
                == b[g.input_starts + ns[t] as int] % m by {
                assert(ns[t] == g.graph.neighborings@[i]@[t]);
            }
            lemma_neighbor_sum_congruent(a, b, g.input_starts as int, ns, m);
        }
    }
}

impl OrionExpanderGraphPositioned {
    /// A random graph reading `input_starts..output_starts` and writing
    /// `output_starts..=output_ends` (nothing when `output_ends` is
    /// `output_starts - 1`), each input adjacent to `expanding_degree`
    /// distinct outputs.
    pub fn new(
        input_starts: usize,
        output_starts: usize,
        output_ends: usize,
        expanding_degree: usize,
        rng: &mut StdRng,
    ) -> (g: Self)
        requires
            input_starts <= output_starts <= output_ends + 1,
            output_ends < usize::MAX,
            expanding_degree <= output_ends + 1 - output_starts,
        ensures
            g.input_starts == input_starts,
            g.output_starts == output_starts,
            g.output_ends == output_ends,
            g.graph.l_vertices_size == output_starts - input_starts,
            g.graph.r_vertices_size == output_ends + 1 - output_starts,
            edges_valid(g.graph),
            sampled_graph(g.graph, expanding_degree as int),
    {
        let graph = OrionExpanderGraph::new(
            output_starts - input_starts,
            output_ends + 1 - output_starts,
            expanding_degree,
            rng,
        );
        OrionExpanderGraphPositioned { graph, input_starts, output_starts, output_ends }
    }

    /// Runs the graph on `buffer`: its outputs go to the output range of both
    /// `scratch` and `buffer`.
    pub fn expander_mul<F: Field>(&self, buffer: &mut [F], scratch: &mut [F]) -> (res: OrionResult<()>)
        requires
            self.input_starts <= self.output_starts,
            self.output_starts <= old(buffer)@.len(),
            self.output_ends < usize::MAX,
            self.output_starts <= self.output_ends + 1,
            self.output_ends + 1 <= old(scratch)@.len(),
            sizes_match(*self) ==> self.output_ends + 1 <= old(buffer)@.len() && edges_valid(self.graph),
        ensures
            final(buffer)@.len() == old(buffer)@.len(),
            final(scratch)@.len() == old(scratch)@.len(),
            !sizes_match(*self) ==> res == Err::<(), OrionPCSError>(OrionPCSError::ParameterUnmatchError)
                && final(buffer)@ == old(buffer)@ && final(scratch)@ == old(scratch)@,
            sizes_match(*self) ==> res is Ok && (forall|k: int|
                0 <= k < old(buffer)@.len() ==> #[trigger] final(buffer)@[k].value() == apply_buffer(
                    values(old(buffer)@),
                    values(old(scratch)@),
                    *self,
                )[k] % F::modulus()) && (forall|k: int|
                0 <= k < old(scratch)@.len() ==> #[trigger] final(scratch)@[k].value() == apply_scratch(
                    values(old(buffer)@),
                    values(old(scratch)@),
                    *self,
                )[k] % F::modulus()),
    {
        let ghost m = F::modulus();
        let ghost ob = buffer@;
        let ghost os = scratch@;
        let in_s = self.input_starts;
        let out_s = self.output_starts;
        let out_e = self.output_ends + 1;
        let mut output: Vec<F> = Vec::new();
        let mut i: usize = out_s;
        while i < out_e
            invariant
                out_s <= i <= out_e,
                out_e <= scratch@.len(),
                output@ == scratch@.subrange(out_s as int, i as int),
            decreases out_e - i,
        {
            output.push(scratch[i]);
            i = i + 1;
        }
        let res = {
            let input_ref = &buffer[in_s..out_s];
            self.graph.expander_mul(input_ref, output.as_mut_slice())
        };
        match res {
            Err(e) => {
                return Err(e);
            },
            Ok(()) => {},
        }
        let ghost outv = output@;
        let len = out_e - out_s;
        let mut t: usize = 0;
        while t < len
            invariant
                t <= len,
                len == out_e - out_s,
                out_e <= buffer@.len(),
                out_e <= scratch@.len(),
                output@ == outv,
                outv.len() == len,
                buffer@.len() == ob.len(),
                scratch@.len() == os.len(),
                forall|k: int|
                    0 <= k < buffer@.len() ==> #[trigger] buffer@[k] == if out_s <= k < out_s + t {
                        outv[k - out_s]
                    } else {
                        ob[k]
                    },
                forall|k: int|
                    0 <= k < scratch@.len() ==> #[trigger] scratch@[k] == if out_s <= k < out_s + t {
                        outv[k - out_s]
                    } else {
                        os[k]
                    },
            decreases len - t,
        {
            scratch[out_s + t] = output[t];
            buffer[out_s + t] = output[t];
            t = t + 1;
        }
        proof {
            let bv = values(ob);
            let sv = values(os);
            assert(values(ob.subrange(in_s as int, out_s as int)) =~= bv.subrange(in_s as int, out_s as int));
            assert forall|k: int| 0 <= k < ob.len() implies #[trigger] buffer@[k].value() == apply_buffer(
                bv,
                sv,
                *self,
            )[k] % m by {
                if in_output(*self, k) {
                    let i = k - out_s;
                    if i < self.graph.neighborings@.len() {
                        assert forall|t: int| 0 <= t < self.graph.neighborings@[i]@.len() implies (#[trigger] self.graph.neighborings@[i]@[t]) < out_s - in_s by {
                        }
                        lemma_neighbor_sum_shift(bv, in_s as int, out_s as int, self.graph.neighborings@[i]@);
                    } else {
                        F::lemma_value_range(os[k]);
                        lemma_reduced(sv[k], m);
                    }
                } else {
                    F::lemma_value_range(ob[k]);
                    lemma_reduced(bv[k], m);
                }
            }
            assert forall|k: int| 0 <= k < os.len() implies #[trigger] scratch@[k].value() == apply_scratch(
                bv,
                sv,
                *self,
            )[k] % m by {
                if in_output(*self, k) {
                    let i = k - out_s;
                    if i < self.graph.neighborings@.len() {
                        assert forall|t: int| 0 <= t < self.graph.neighborings@[i]@.len() implies (#[trigger] self.graph.neighborings@[i]@[t]) < out_s - in_s by {
                        }
                        lemma_neighbor_sum_shift(bv, in_s as int, out_s as int, self.graph.neighborings@[i]@);
                    } else {
                        F::lemma_value_range(os[k]);
                        lemma_reduced(sv[k], m);
                    }
                } else {
                    F::lemma_value_range(os[k]);
                    lemma_reduced(sv[k], m);
                }
            }
        }
        Ok(())
    }
}

/// Summing neighbours in a sub-range is summing them at an offset in the whole.
proof fn lemma_neighbor_sum_shift(buf: Seq<int>, lo: int, hi: int, ns: Seq<usize>)
    requires
        0 <= lo <= hi <= buf.len(),
        forall|t: int| 0 <= t < ns.len() ==> (#[trigger] ns[t]) < hi - lo,
    ensures
        neighbor_sum(buf.subrange(lo, hi), 0, ns) == neighbor_sum(buf, lo, ns),
    decreases ns.len(),
{
    if ns.len() > 0 {
        let ns2 = ns.drop_last();
        assert forall|t: int| 0 <= t < ns2.len() implies (#[trigger] ns2[t]) < hi - lo by {
            assert(ns2[t] == ns[t]);
        }
        lemma_neighbor_sum_shift(buf, lo, hi, ns2);
        assert(ns[ns.len() - 1] < hi - lo);
    }
}

/// An instance of the Orion expander code. Encoding copies the message to the
/// front of the codeword and then runs the `g0s` followed by the `g1s`, each
/// writing its outputs behind the symbols it reads.
#[derive(Clone, Debug)]
pub struct OrionCode {
    pub hamming_weight: OrionRatio,
    pub msg_len: usize,
    pub codeword_len: usize,
    pub g0s: Vec<OrionExpanderGraphPositioned>,
    pub g1s: Vec<OrionExpanderGraphPositioned>,
}

/// The graphs of a code in the order encoding runs them.
pub open spec fn code_graphs(c: OrionCode) -> Seq<OrionExpanderGraphPositioned> {
    c.g0s@ + c.g1s@
}

/// The buffer and scratch contents after the first `k` graphs have run.
pub open spec fn encode_steps(gs: Seq<OrionExpanderGraphPositioned>, buf: Seq<int>, scr: Seq<int>, k: int) -> (
    Seq<int>,
    Seq<int>,
)
    decreases k,
{
    if k <= 0 {
        (buf, scr)
    } else {
        let p = encode_steps(gs, buf, scr, k - 1);
        (apply_buffer(p.0, p.1, gs[k - 1]), apply_scratch(p.0, p.1, gs[k - 1]))
    }
}

/// The index of the first graph, from `j` on, whose sizes do not match its
/// ranges, or the number of graphs when there is none.
pub open spec fn first_mismatch_from(gs: Seq<OrionExpanderGraphPositioned>, j: int) -> int
    decreases gs.len() - j,
{
    if j >= gs.len() {
        gs.len() as int
    } else if !sizes_match(gs[j]) {
        j
    } else {
        first_mismatch_from(gs, j + 1)
    }
}

/// The index of the first graph whose sizes do not match its ranges, or the
/// number of graphs when all match.
pub open spec fn first_mismatch(gs: Seq<OrionExpanderGraphPositioned>) -> int {
    first_mismatch_from(gs, 0)
}

/// Encoding a buffer of length `n` runs without going out of bounds: the
/// graphs it reaches (up to and including the first mismatching one) have
/// their ranges inside the buffer, and those it runs have valid edges.
pub open spec fn graphs_runnable(gs: Seq<OrionExpanderGraphPositioned>, n: int) -> bool {
    forall|j: int|
        0 <= j < gs.len() && j <= first_mismatch(gs) ==> positions_valid(#[trigger] gs[j], n) && (j
            < first_mismatch(gs) ==> edges_valid(gs[j].graph))
}

/// The initial codeword buffer: the message followed by the old buffer's tail.
pub open spec fn encode_input(msg: Seq<int>, old_buffer: Seq<int>) -> Seq<int> {
    msg + old_buffer.skip(msg.len() as int)
}

/// `n` zeros.
pub open spec fn zeros(n: int) -> Seq<int> {
    Seq::new(n as nat, |i: int| 0)
}

proof fn lemma_first_mismatch_props(gs: Seq<OrionExpanderGraphPositioned>, j: int)
    requires
        0 <= j <= gs.len(),
    ensures
        j <= first_mismatch_from(gs, j) <= gs.len(),
        forall|i: int| j <= i < first_mismatch_from(gs, j) ==> sizes_match(#[trigger] gs[i]),
        first_mismatch_from(gs, j) < gs.len() ==> !sizes_match(gs[first_mismatch_from(gs, j)]),
    decreases gs.len() - j,
{
    if j < gs.len() && sizes_match(gs[j]) {
        lemma_first_mismatch_props(gs, j + 1);
    }
}

/// The encoding steps keep the lengths of the buffer and of the scratch.
pub proof fn lemma_encode_steps_len(gs: Seq<OrionExpanderGraphPositioned>, buf: Seq<int>, scr: Seq<int>, k: int)
    ensures
        encode_steps(gs, buf, scr, k).0.len() == buf.len(),
        encode_steps(gs, buf, scr, k).1.len() == scr.len(),
    decreases k,
{
    if k > 0 {
        lemma_encode_steps_len(gs, buf, scr, k - 1);
    }
}

impl OrionCode {
    /// The codeword length.
    pub fn code_len(&self) -> (r: usize)
        ensures
            r == self.codeword_len,
    {
        self.codeword_len
    }

    /// The message length.
    pub fn msg_len(&self) -> (r: usize)
        ensures
            r == self.msg_len,
    {
        self.msg_len
    }

    /// Encodes `msg` into `buffer`. Fails, leaving `buffer` as it was, when the
    /// lengths do not match the code; fails after the graphs before the first
    /// one whose sizes do not match its ranges, if there is one.
    pub fn encode_in_place<F: Field>(&self, msg: &[F], buffer: &mut [F]) -> (res: OrionResult<()>)
        requires
            msg@.len() == self.msg_len && old(buffer)@.len() == self.codeword_len ==> self.msg_len
                <= self.codeword_len && graphs_runnable(code_graphs(*self), self.codeword_len as int),
        ensures
            final(buffer)@.len() == old(buffer)@.len(),
            !(msg@.len() == self.msg_len && old(buffer)@.len() == self.codeword_len) ==> res == Err::<
                (),
                OrionPCSError,
            >(OrionPCSError::ParameterUnmatchError) && final(buffer)@ == old(buffer)@,
            msg@.len() == self.msg_len && old(buffer)@.len() == self.codeword_len ==> {
                &&& (res is Ok <==> first_mismatch(code_graphs(*self)) == code_graphs(*self).len())
                &&& res is Err ==> res == Err::<(), OrionPCSError>(OrionPCSError::ParameterUnmatchError)
                &&& forall|k: int|
                    0 <= k < old(buffer)@.len() ==> #[trigger] final(buffer)@[k].value() == encode_steps(
                        code_graphs(*self),
                        encode_input(values(msg@), values(old(buffer)@)),
                        zeros(self.codeword_len as int),
                        first_mismatch(code_graphs(*self)),
                    ).0[k] % F::modulus()
            },
    {
        if msg.len() != self.msg_len || buffer.len() != self.codeword_len {
            return Err(OrionPCSError::ParameterUnmatchError);
        }
        let ghost m = F::modulus();
        let ghost gs = code_graphs(*self);
        let ghost fm = first_mismatch(gs);
        let ghost init = encode_input(values(msg@), values(buffer@));
        let ghost z = zeros(self.codeword_len as int);
        let n = self.codeword_len;
        let ml = self.msg_len;
        proof {
            lemma_first_mismatch_props(gs, 0);
            F::lemma_value_range(msg@[0]);
        }
        let mut i: usize = 0;
        while i < ml
            invariant
                i <= ml <= n,
                msg@.len() == ml,
                buffer@.len() == n,
                init == encode_input(values(msg@), values(old(buffer)@)),
                forall|k: int| 0 <= k < i ==> #[trigger] buffer@[k] == msg@[k],
                forall|k: int| i <= k < n ==> #[trigger] buffer@[k] == old(buffer)@[k],
            decreases ml - i,
        {
            buffer[i] = msg[i];
            i = i + 1;
        }
        let mut scratch: Vec<F> = Vec::new();
        let mut i: usize = 0;
        while i < n
            invariant
                i <= n,
                scratch@.len() == i,
                forall|k: int| 0 <= k < i ==> #[trigger] scratch@[k].value() == 0,
            decreases n - i,
        {
            scratch.push(F::zero());
            i = i + 1;
        }
        proof {
            assert forall|k: int| 0 <= k < n implies #[trigger] buffer@[k].value() == init[k] % m by {
                if k < ml {
                    F::lemma_value_range(msg@[k]);
                    lemma_reduced(msg@[k].value(), m);
                } else {
                    F::lemma_value_range(old(buffer)@[k]);
                    lemma_reduced(old(buffer)@[k].value(), m);
                }
            }
            assert forall|k: int| 0 <= k < n implies #[trigger] scratch@[k].value() == z[k] % m by {
                F::lemma_value_range(scratch@[k]);
                lemma_reduced(0, m);
            }
        }
        let n0 = self.g0s.len();
        proof {
            assert(gs.subrange(0, n0 as int) =~= self.g0s@);
            assert(gs.subrange(n0 as int, gs.len() as int) =~= self.g1s@);
            assert(init.len() == n);
            assert(z.len() == n);
        }
        let r0 = run_graphs(&self.g0s, Ghost(gs), Ghost(0), Ghost(init), Ghost(z), buffer, &mut scratch);
        match r0 {
            Err(e) => {
                return Err(e);
            },
            Ok(()) => {},
        }
        run_graphs(&self.g1s, Ghost(gs), Ghost(n0 as int), Ghost(init), Ghost(z), buffer, &mut scratch)
    }
}

/// Runs `graphs`, which are the graphs of `gs` from position `offset` on, on
/// `buffer` and `scratch`, which hold the state of encoding after the graphs
/// before `offset`.
fn run_graphs<F: Field>(
    graphs: &Vec<OrionExpanderGraphPositioned>,
    Ghost(gs): Ghost<Seq<OrionExpanderGraphPositioned>>,
    Ghost(offset): Ghost<int>,
    Ghost(init): Ghost<Seq<int>>,
    Ghost(z): Ghost<Seq<int>>,
    buffer: &mut [F],
    scratch: &mut Vec<F>,
) -> (res: OrionResult<()>)
    requires
        0 <= offset,
        offset + graphs@.len() <= gs.len(),
        gs.subrange(offset, offset + graphs@.len()) == graphs@,
        offset <= first_mismatch(gs),
        graphs_runnable(gs, old(buffer)@.len() as int),
        init.len() == old(buffer)@.len(),
        z.len() == old(buffer)@.len(),
        old(scratch)@.len() == old(buffer)@.len(),
        forall|k: int|
            0 <= k < old(buffer)@.len() ==> #[trigger] old(buffer)@[k].value() == encode_steps(gs, init, z, offset).0[k]
                % F::modulus(),
        forall|k: int|
            0 <= k < old(buffer)@.len() ==> #[trigger] old(scratch)@[k].value() == encode_steps(gs, init, z, offset).1[k]
                % F::modulus(),
    ensures
        final(buffer)@.len() == old(buffer)@.len(),
        final(scratch)@.len() == old(scratch)@.len(),
        res is Ok <==> offset + graphs@.len() <= first_mismatch(gs),
        res is Err ==> res == Err::<(), OrionPCSError>(OrionPCSError::ParameterUnmatchError),
        ({
            let last = if res is Ok { offset + graphs@.len() } else { first_mismatch(gs) };
            &&& forall|k: int|
                0 <= k < old(buffer)@.len() ==> #[trigger] final(buffer)@[k].value() == encode_steps(gs, init, z, last).0[k]
                    % F::modulus()
            &&& forall|k: int|
                0 <= k < old(buffer)@.len() ==> #[trigger] final(scratch)@[k].value() == encode_steps(gs, init, z, last).1[k]
                    % F::modulus()
        }),
{
    let ghost m = F::modulus();
    let ghost fm = first_mismatch(gs);
    let ghost n = buffer@.len() as int;
    let blen = buffer.len();
    proof {
        lemma_first_mismatch_props(gs, 0);
        F::lemma_modulus();
    }
    let mut j: usize = 0;
    while j < graphs.len()
        invariant
            j <= graphs@.len(),
            0 <= offset,
            n == old(buffer)@.len(),
            n == old(scratch)@.len(),
            n == blen,
            offset + graphs@.len() <= gs.len(),
            gs.subrange(offset, offset + graphs@.len()) == graphs@,
            fm == first_mismatch(gs),
            offset + j <= fm <= gs.len(),
            forall|i: int| 0 <= i < fm ==> sizes_match(#[trigger] gs[i]),
            fm < gs.len() ==> !sizes_match(gs[fm]),
            graphs_runnable(gs, n),
            buffer@.len() == n,
            init.len() == n,
            z.len() == n,
            scratch@.len() == n,
            m == F::modulus(),
            m > 1,
            forall|k: int|
                0 <= k < n ==> #[trigger] buffer@[k].value() == encode_steps(gs, init, z, offset + j).0[k] % m,
            forall|k: int|
                0 <= k < n ==> #[trigger] scratch@[k].value() == encode_steps(gs, init, z, offset + j).1[k] % m,
        decreases graphs@.len() - j,
    {
        let g = &graphs[j];
        let ghost gi = offset + j;
        proof {
            let sub = gs.subrange(offset, offset + graphs@.len());
            assert(graphs@[j as int] == sub[j as int]);
            assert(sub[j as int] == gs[offset + j]);
            assert(*g == gs[gi]);
            assert(0 <= gi < gs.len() && gi <= fm);
            assert(positions_valid(gs[gi], n));
        }
        let ghost before_b = buffer@;
        let ghost before_s = scratch@;
        let r = g.expander_mul(buffer, scratch.as_mut_slice());
        match r {
            Err(e) => {
                proof {
                    assert(gi == fm);
                }
                return Err(e);
            },
            Ok(()) => {},
        }
        proof {
            let p = encode_steps(gs, init, z, gi);
            lemma_encode_steps_len(gs, init, z, gi);
            assert forall|k: int| 0 <= k < n implies #[trigger] values(before_b)[k] % m == p.0[k] % m by {
                F::lemma_value_range(before_b[k]);
                lemma_reduced(before_b[k].value(), m);
            }
            assert forall|k: int| 0 <= k < n implies #[trigger] values(before_s)[k] % m == p.1[k] % m by {
                F::lemma_value_range(before_s[k]);
                lemma_reduced(before_s[k].value(), m);
            }
            lemma_apply_congruent(values(before_b), values(before_s), p.0, p.1, *g, m);
            assert forall|k: int| 0 <= k < n implies #[trigger] buffer@[k].value() == encode_steps(
                gs,
                init,
                z,
                gi + 1,
            ).0[k] % m by {
                lemma_mod_twice(apply_buffer(values(before_b), values(before_s), *g)[k], m);
            }
            assert forall|k: int| 0 <= k < n implies #[trigger] scratch@[k].value() == encode_steps(
                gs,
                init,
                z,
                gi + 1,
            ).1[k] % m by {
                lemma_mod_twice(apply_scratch(values(before_b), values(before_s), *g)[k], m);
            }
        }
        j = j + 1;
    }
    Ok(())
}

/// The codeword of `msg` under `code`: the message followed by zeros, with
/// every graph of the code run over it.
pub open spec fn encode_message(code: OrionCode, msg: Seq<int>) -> Seq<int> {
    encode_steps(
        code_graphs(code),
        msg + zeros(code.codeword_len - msg.len()),
        zeros(code.codeword_len as int),
        code_graphs(code).len() as int,
    ).0
}

/// The code's graphs are laid out inside its codewords, their sizes match
/// their ranges, and their edges are valid: encoding a message of the right
/// length succeeds.
pub open spec fn code_well_formed(code: OrionCode) -> bool {
    &&& code.msg_len <= code.codeword_len
    &&& graphs_runnable(code_graphs(code), code.codeword_len as int)
    &&& first_mismatch(code_graphs(code)) == code_graphs(code).len()
}

impl OrionCode {
    /// The codeword of `msg`; fails when `msg` does not have the code's message
    /// length, or when one of the code's graphs does not fit its ranges.
    pub fn encode<F: Field>(&self, msg: &[F]) -> (res: OrionResult<Vec<F>>)
        requires
            msg@.len() == self.msg_len ==> self.msg_len <= self.codeword_len && graphs_runnable(
                code_graphs(*self),
                self.codeword_len as int,
            ),
        ensures
            res is Ok <==> msg@.len() == self.msg_len && first_mismatch(code_graphs(*self)) == code_graphs(
                *self,
            ).len(),
            res is Err ==> res == Err::<Vec<F>, OrionPCSError>(OrionPCSError::ParameterUnmatchError),
            res matches Ok(c) ==> c@.len() == self.codeword_len && forall|k: int|
                0 <= k < c@.len() ==> #[trigger] c@[k].value() == encode_message(*self, values(msg@))[k]
                    % F::modulus(),
    {
        let n = self.codeword_len;
        let mut codeword: Vec<F> = Vec::new();
        let mut i: usize = 0;
        while i < n
            invariant
                i <= n,
                codeword@.len() == i,
                forall|k: int| 0 <= k < i ==> #[trigger] codeword@[k].value() == 0,
            decreases n - i,
        {
            codeword.push(F::zero());
            i = i + 1;
        }
        let ghost before = codeword@;
        let r = self.encode_in_place(msg, codeword.as_mut_slice());
        match r {
            Err(e) => Err(e),
            Ok(()) => {
                proof {
                    let gs = code_graphs(*self);
                    assert(encode_input(values(msg@), values(before)) =~= values(msg@) + zeros(
                        n - msg@.len(),
                    ));
                    assert(values(msg@).len() == msg@.len());
                }
                Ok(codeword)
            },
        }
    }
}


proof fn lemma_neighbor_sum_linear(a: Seq<int>, b: Seq<int>, w: int, offset: int, ns: Seq<usize>)
    requires
        a.len() == b.len(),
        forall|t: int| 0 <= t < ns.len() ==> 0 <= offset + (#[trigger] ns[t]) < a.len(),
    ensures
        neighbor_sum(lin(a, b, w), offset, ns) == w * neighbor_sum(a, offset, ns) + neighbor_sum(b, offset, ns),
    decreases ns.len(),
{
    if ns.len() > 0 {
        let ns2 = ns.drop_last();
        assert forall|t: int| 0 <= t < ns2.len() implies 0 <= offset + (#[trigger] ns2[t]) < a.len() by {
            assert(ns2[t] == ns[t]);
        }
        lemma_neighbor_sum_linear(a, b, w, offset, ns2);
        let k = offset + ns[ns.len() - 1] as int;
        let sa = neighbor_sum(a, offset, ns2);
        let sb = neighbor_sum(b, offset, ns2);
        assert(w * sa + sb + (w * a[k] + b[k]) == w * (sa + a[k]) + (sb + b[k])) by (nonlinear_arith);
    }
}

proof fn lemma_apply_linear(
    a: Seq<int>,
    sa: Seq<int>,
    b: Seq<int>,
    sb: Seq<int>,
    w: int,
    g: OrionExpanderGraphPositioned,
)
    requires
        a.len() == b.len(),
        sa.len() == sb.len(),
        sa.len() == a.len(),
        positions_valid(g, a.len() as int),
        sizes_match(g),
        edges_valid(g.graph),
    ensures
        apply_buffer(lin(a, b, w), lin(sa, sb, w), g) == lin(apply_buffer(a, sa, g), apply_buffer(b, sb, g), w),
        apply_scratch(lin(a, b, w), lin(sa, sb, w), g) == lin(apply_scratch(a, sa, g), apply_scratch(b, sb, g), w),
{
    assert forall|i: int|
        0 <= i < g.graph.r_vertices_size implies #[trigger] graph_output(lin(a, b, w), lin(sa, sb, w), g, i) == w
        * graph_output(a, sa, g, i) + graph_output(b, sb, g, i) by {
        if i < g.graph.neighborings@.len() {
            let ns = g.graph.neighborings@[i]@;
            assert forall|t: int| 0 <= t < ns.len() implies 0 <= g.input_starts + (#[trigger] ns[t]) < a.len() by {
                assert(ns[t] == g.graph.neighborings@[i]@[t]);
            }
            lemma_neighbor_sum_linear(a, b, w, g.input_starts as int, ns);
        }
    }
    assert(apply_buffer(lin(a, b, w), lin(sa, sb, w), g) =~= lin(apply_buffer(a, sa, g), apply_buffer(b, sb, g), w));
    assert(apply_scratch(lin(a, b, w), lin(sa, sb, w), g) =~= lin(
        apply_scratch(a, sa, g),
        apply_scratch(b, sb, g),
        w,
    ));
}

proof fn lemma_encode_steps_linear(
    gs: Seq<OrionExpanderGraphPositioned>,
    a: Seq<int>,
    sa: Seq<int>,
    b: Seq<int>,
    sb: Seq<int>,
    w: int,
    k: int,
)
    requires
        a.len() == b.len(),
        sa.len() == sb.len(),
        sa.len() == a.len(),
        0 <= k <= first_mismatch(gs),
        graphs_runnable(gs, a.len() as int),
    ensures
        encode_steps(gs, lin(a, b, w), lin(sa, sb, w), k).0 == lin(
            encode_steps(gs, a, sa, k).0,
            encode_steps(gs, b, sb, k).0,
            w,
        ),
        encode_steps(gs, lin(a, b, w), lin(sa, sb, w), k).1 == lin(
            encode_steps(gs, a, sa, k).1,
            encode_steps(gs, b, sb, k).1,
            w,
        ),
    decreases k,
{
    if k > 0 {
        lemma_first_mismatch_props(gs, 0);
        lemma_encode_steps_linear(gs, a, sa, b, sb, w, k - 1);
        let pa = encode_steps(gs, a, sa, k - 1);
        let pb = encode_steps(gs, b, sb, k - 1);
        lemma_encode_steps_len(gs, a, sa, k - 1);
        lemma_encode_steps_len(gs, b, sb, k - 1);
        assert(positions_valid(gs[k - 1], a.len() as int));
        lemma_apply_linear(pa.0, pa.1, pb.0, pb.1, w, gs[k - 1]);
    }
}

/// The Orion code is linear: the codeword of `w * a + b` is `w` times the
/// codeword of `a` plus the codeword of `b`.
pub proof fn lemma_encode_linear(code: OrionCode, a: Seq<int>, b: Seq<int>, w: int)
    requires
        code_well_formed(code),
        a.len() == code.msg_len,
        b.len() == code.msg_len,
    ensures
        encode_message(code, lin(a, b, w)) == lin(encode_message(code, a), encode_message(code, b), w),
{
    let n = code.codeword_len as int;
    let z = zeros(n);
    let za = zeros(n - a.len());
    assert(w * 0 + 0 == 0) by (nonlinear_arith);
    assert(lin(a, b, w) + za =~= lin(a + za, b + za, w));
    assert(lin(z, z, w) =~= z);
    lemma_encode_steps_linear(code_graphs(code), a + za, z, b + za, z, w, code_graphs(code).len() as int);
}


/// A rate `num / den`, the form in which the code's parameters are given.
#[derive(Clone, Copy, Debug, PartialEq, Eq, Structural)]
pub struct OrionRatio {
    pub num: u32,
    pub den: u32,
}

/// The parameters of an Orion code instance: graph g0 maps a window of `n`
/// symbols to about `alpha_g0 * n` symbols, until windows are at most
/// `length_threshold_g0s` long; graph g1 maps the `L` symbols behind a g0
/// output to about `alpha_g1 * L` symbols; `hamming_weight` is the code's
/// relative distance.
#[derive(Clone, Copy, Debug, PartialEq, Eq, Structural)]
pub struct OrionCodeParameter {
    pub alpha_g0: OrionRatio,
    pub degree_g0: usize,
    pub length_threshold_g0s: usize,
    pub alpha_g1: OrionRatio,
    pub degree_g1: usize,
    pub hamming_weight: OrionRatio,
}

/// The code parameter instance of the Orion paper, Section 5.
pub fn orion_code_parameter_instance() -> (p: OrionCodeParameter)
    ensures
        p == (OrionCodeParameter {
            alpha_g0: OrionRatio { num: 33, den: 100 },
            degree_g0: 6,
            length_threshold_g0s: 12,
            alpha_g1: OrionRatio { num: 337, den: 1000 },
            degree_g1: 6,
            hamming_weight: OrionRatio { num: 55, den: 1000 },
        }),
{
    OrionCodeParameter {
        alpha_g0: OrionRatio { num: 33, den: 100 },
        degree_g0: 6,
        length_threshold_g0s: ORION_LENGTH_THRESHOLD_G0S,
        alpha_g1: OrionRatio { num: 337, den: 1000 },
        degree_g1: 6,
        hamming_weight: OrionRatio { num: 55, den: 1000 },
    }
}

/// `n * a` rounded to the nearest integer, halves rounded up.
pub open spec fn scaled_round(n: int, a: OrionRatio) -> int {
    (2 * n * a.num + a.den) / (2 * a.den as int)
}

/// The g0 graphs that construction places once the window
/// `in_s..out_s` is next: for each, its input start, output start and
/// output length.
pub open spec fn g0_steps(t: int, a: OrionRatio, in_s: int, out_s: int) -> Seq<(int, int, int)>
    decreases out_s - in_s,
{
    let n = out_s - in_s;
    let len = scaled_round(n, a);
    if n > t && a.den > 0 && 0 <= len < n {
        seq![(in_s, out_s, len)] + g0_steps(t, a, out_s, out_s + len)
    } else {
        Seq::empty()
    }
}

/// Where the g0 outputs end once the window `in_s..out_s` is next.
pub open spec fn g0_end(t: int, a: OrionRatio, in_s: int, out_s: int) -> int
    decreases out_s - in_s,
{
    let n = out_s - in_s;
    let len = scaled_round(n, a);
    if n > t && a.den > 0 && 0 <= len < n {
        g0_end(t, a, out_s, out_s + len)
    } else {
        out_s
    }
}

/// The g0 windows shrink until one is at most `t` long.
pub open spec fn g0_progresses(t: int, a: OrionRatio, in_s: int, out_s: int) -> bool
    decreases out_s - in_s,
{
    let n = out_s - in_s;
    let len = scaled_round(n, a);
    if n <= t {
        true
    } else if a.den > 0 && 0 <= len < n {
        g0_progresses(t, a, out_s, out_s + len)
    } else {
        false
    }
}

/// The g1 graphs placed from the output position `cur` on, reading from the
/// starts in `inputs`, the last first: for each, its input start, output start
/// and output length.
pub open spec fn g1_steps(a: OrionRatio, inputs: Seq<int>, cur: int) -> Seq<(int, int, int)>
    decreases inputs.len(),
{
    if inputs.len() == 0 {
        Seq::empty()
    } else {
        let len = scaled_round(cur - inputs.last(), a);
        seq![(inputs.last(), cur, len)] + g1_steps(a, inputs.drop_last(), cur + len)
    }
}

/// Where the g1 outputs end.
pub open spec fn g1_end(a: OrionRatio, inputs: Seq<int>, cur: int) -> int
    decreases inputs.len(),
{
    if inputs.len() == 0 {
        cur
    } else {
        g1_end(a, inputs.drop_last(), cur + scaled_round(cur - inputs.last(), a))
    }
}

/// The output starts of a list of steps.
pub open spec fn output_starts_of(steps: Seq<(int, int, int)>) -> Seq<int> {
    Seq::new(steps.len(), |i: int| steps[i].1)
}

/// The g0 graphs of the code for messages of length `msg_len`.
pub open spec fn code_g0_steps(p: OrionCodeParameter, msg_len: int) -> Seq<(int, int, int)> {
    g0_steps(p.length_threshold_g0s as int, p.alpha_g0, 0, msg_len)
}

/// Where the g0 outputs of the code end.
pub open spec fn code_g0_end(p: OrionCodeParameter, msg_len: int) -> int {
    g0_end(p.length_threshold_g0s as int, p.alpha_g0, 0, msg_len)
}

/// The g1 graphs of the code for messages of length `msg_len`.
pub open spec fn code_g1_steps(p: OrionCodeParameter, msg_len: int) -> Seq<(int, int, int)> {
    g1_steps(p.alpha_g1, output_starts_of(code_g0_steps(p, msg_len)), code_g0_end(p, msg_len))
}

/// The codeword length of the code for messages of length `msg_len`.
pub open spec fn code_len_of(p: OrionCodeParameter, msg_len: int) -> int {
    g1_end(p.alpha_g1, output_starts_of(code_g0_steps(p, msg_len)), code_g0_end(p, msg_len))
}

/// The checks the parameters must pass: both rates lie strictly between 0
/// and 1, and the relative distance is below `1 / length_threshold_g0s`.
pub open spec fn code_params_valid(p: OrionCodeParameter) -> bool {
    &&& 0 < p.alpha_g0.num < p.alpha_g0.den
    &&& 0 < p.alpha_g1.num < p.alpha_g1.den
    &&& p.hamming_weight.num * p.length_threshold_g0s < p.hamming_weight.den
}

/// A code for messages of length `msg_len` can be built: the parameters are
/// valid, the g0 recursion ends, and the codeword length fits in a `usize`.
pub open spec fn code_layout_ok(p: OrionCodeParameter, msg_len: int) -> bool {
    &&& code_params_valid(p)
    &&& g0_progresses(p.length_threshold_g0s as int, p.alpha_g0, 0, msg_len)
    &&& code_len_of(p, msg_len) <= usize::MAX
}

/// `g` reads `s.0..s.1` and writes `s.2` symbols from `s.1` on, and is a
/// random graph in which each input has `min(d, s.2)` distinct outputs.
pub open spec fn placed_as(g: OrionExpanderGraphPositioned, s: (int, int, int), d: int) -> bool {
    &&& g.input_starts == s.0
    &&& g.output_starts == s.1
    &&& g.output_ends == s.1 + s.2 - 1
    &&& g.graph.l_vertices_size == s.1 - s.0
    &&& g.graph.r_vertices_size == s.2
    &&& edges_valid(g.graph)
    &&& sampled_graph(
        g.graph,
        if d < s.2 {
            d
        } else {
            s.2
        },
    )
}

/// `code` is an instance of the code with parameters `p` for messages of
/// length `msg_len`: its graphs are placed as the construction lays them out,
/// each a random graph of the parameters' degree.
pub open spec fn code_instance_of(code: OrionCode, p: OrionCodeParameter, msg_len: int) -> bool {
    &&& code.hamming_weight == p.hamming_weight
    &&& code.msg_len == msg_len
    &&& code.codeword_len == code_len_of(p, msg_len)
    &&& code.g0s@.len() == code_g0_steps(p, msg_len).len()
    &&& forall|i: int|
        0 <= i < code.g0s@.len() ==> placed_as(#[trigger] code.g0s@[i], code_g0_steps(p, msg_len)[i], p.degree_g0 as int)
    &&& code.g1s@.len() == code_g1_steps(p, msg_len).len()
    &&& forall|i: int|
        0 <= i < code.g1s@.len() ==> placed_as(#[trigger] code.g1s@[i], code_g1_steps(p, msg_len)[i], p.degree_g1 as int)
}

/// `n * a` rounded to the nearest integer, halves rounded up.
fn round_scaled(n: usize, a: OrionRatio) -> (r: usize)
    requires
        0 < a.den,
        a.num <= a.den,
    ensures
        r == scaled_round(n as int, a),
        r <= n,
{
    let nn = n as u128;
    let an = a.num as u128;
    let ad = a.den as u128;
    assert(2 * nn * an <= 2 * 0xffff_ffff_ffff_ffffu128 * 0xffff_ffffu128) by (nonlinear_arith)
        requires
            nn <= 0xffff_ffff_ffff_ffffu128,
            an <= 0xffff_ffffu128,
    ;
    let top: u128 = 2 * nn * an + ad;
    let bottom: u128 = 2 * ad;
    let q = top / bottom;
    assert(q <= nn) by (nonlinear_arith)
        requires
            top == 2 * nn * an + ad,
            bottom == 2 * ad,
            q == top / bottom,
            an <= ad,
            ad > 0,
    ;
    q as usize
}

proof fn lemma_scaled_round_nonneg(n: int, a: OrionRatio)
    requires
        n >= 0,
        a.den > 0,
    ensures
        scaled_round(n, a) >= 0,
{
    let top = 2 * n * a.num + a.den;
    assert(top >= 0) by (nonlinear_arith)
        requires
            n >= 0,
            a.num >= 0,
            a.den > 0,
            top == 2 * n * a.num + a.den,
    ;
    vstd::arithmetic::div_mod::lemma_div_pos_is_pos(top, 2 * a.den as int);
}

/// The entries of `s` as integers.
pub open spec fn as_ints(s: Seq<usize>) -> Seq<int> {
    Seq::new(s.len(), |i: int| s[i] as int)
}

proof fn lemma_g0_steps_bounds(t: int, a: OrionRatio, in_s: int, out_s: int)
    requires
        in_s <= out_s,
    ensures
        forall|i: int|
            0 <= i < g0_steps(t, a, in_s, out_s).len() ==> (#[trigger] g0_steps(t, a, in_s, out_s)[i]).0 <= g0_steps(
                t,
                a,
                in_s,
                out_s,
            )[i].1 && g0_steps(t, a, in_s, out_s)[i].1 + g0_steps(t, a, in_s, out_s)[i].2 <= g0_end(t, a, in_s, out_s)
                && g0_steps(t, a, in_s, out_s)[i].2 >= 0,
    decreases out_s - in_s,
{
    let n = out_s - in_s;
    let len = scaled_round(n, a);
    if n > t && a.den > 0 && 0 <= len < n {
        lemma_g0_steps_bounds(t, a, out_s, out_s + len);
        lemma_g0_end_ge(t, a, out_s, out_s + len);
        let steps = g0_steps(t, a, in_s, out_s);
        let rest = g0_steps(t, a, out_s, out_s + len);
        assert forall|i: int| 0 <= i < steps.len() implies (#[trigger] steps[i]).0 <= steps[i].1 && steps[i].1
            + steps[i].2 <= g0_end(t, a, in_s, out_s) && steps[i].2 >= 0 by {
            if i > 0 {
                assert(steps[i] == rest[i - 1]);
            }
        }
    }
}

proof fn lemma_g0_end_ge(t: int, a: OrionRatio, in_s: int, out_s: int)
    requires
        in_s <= out_s,
    ensures
        out_s <= g0_end(t, a, in_s, out_s),
    decreases out_s - in_s,
{
    let n = out_s - in_s;
    let len = scaled_round(n, a);
    if n > t && a.den > 0 && 0 <= len < n {
        lemma_g0_end_ge(t, a, out_s, out_s + len);
    }
}

proof fn lemma_g1_end_ge(a: OrionRatio, inputs: Seq<int>, cur: int)
    requires
        a.den > 0,
        forall|k: int| 0 <= k < inputs.len() ==> #[trigger] inputs[k] <= cur,
    ensures
        cur <= g1_end(a, inputs, cur),
    decreases inputs.len(),
{
    if inputs.len() > 0 {
        let len = scaled_round(cur - inputs.last(), a);
        lemma_scaled_round_nonneg(cur - inputs.last(), a);
        let rest = inputs.drop_last();
        assert forall|k: int| 0 <= k < rest.len() implies #[trigger] rest[k] <= cur + len by {
            assert(rest[k] == inputs[k]);
        }
        lemma_g1_end_ge(a, rest, cur + len);
    }
}

proof fn lemma_all_sizes_match(gs: Seq<OrionExpanderGraphPositioned>)
    requires
        forall|i: int| 0 <= i < gs.len() ==> sizes_match(#[trigger] gs[i]),
    ensures
        first_mismatch(gs) == gs.len(),
{
    lemma_first_mismatch_props(gs, 0);
}

proof fn lemma_g1_steps_bounds(a: OrionRatio, inputs: Seq<int>, cur: int)
    requires
        a.den > 0,
        forall|k: int| 0 <= k < inputs.len() ==> #[trigger] inputs[k] <= cur,
    ensures
        forall|i: int|
            0 <= i < g1_steps(a, inputs, cur).len() ==> (#[trigger] g1_steps(a, inputs, cur)[i]).0 <= g1_steps(
                a,
                inputs,
                cur,
            )[i].1 && g1_steps(a, inputs, cur)[i].1 + g1_steps(a, inputs, cur)[i].2 <= g1_end(a, inputs, cur)
                && g1_steps(a, inputs, cur)[i].2 >= 0,
    decreases inputs.len(),
{
    if inputs.len() > 0 {
        let len = scaled_round(cur - inputs.last(), a);
        lemma_scaled_round_nonneg(cur - inputs.last(), a);
        let rest = inputs.drop_last();
        assert forall|k: int| 0 <= k < rest.len() implies #[trigger] rest[k] <= cur + len by {
            assert(rest[k] == inputs[k]);
        }
        lemma_g1_steps_bounds(a, rest, cur + len);
        lemma_g1_end_ge(a, rest, cur + len);
        let steps = g1_steps(a, inputs, cur);
        let tail = g1_steps(a, rest, cur + len);
        assert forall|i: int| 0 <= i < steps.len() implies (#[trigger] steps[i]).0 <= steps[i].1 && steps[i].1
            + steps[i].2 <= g1_end(a, inputs, cur) && steps[i].2 >= 0 by {
            if i > 0 {
                assert(steps[i] == tail[i - 1]);
            } else {
                assert(inputs[inputs.len() - 1] <= cur);
            }
        }
    }
}

/// A code built from parameters that pass the construction's checks encodes
/// every message of its length: its graphs lie inside its codewords, their
/// sizes match their ranges, and their edges are valid.
pub proof fn lemma_code_instance_well_formed(code: OrionCode, p: OrionCodeParameter, msg_len: int)
    requires
        0 <= msg_len,
        code_layout_ok(p, msg_len),
        code_instance_of(code, p, msg_len),
    ensures
        code_well_formed(code),
{
    let t = p.length_threshold_g0s as int;
    let g0all = code_g0_steps(p, msg_len);
    let g1all = code_g1_steps(p, msg_len);
    let e = code_g0_end(p, msg_len);
    let starts = output_starts_of(g0all);
    let clen = code.codeword_len as int;
    lemma_g0_end_ge(t, p.alpha_g0, 0, msg_len);
    lemma_g0_steps_bounds(t, p.alpha_g0, 0, msg_len);
    assert forall|k: int| 0 <= k < starts.len() implies #[trigger] starts[k] <= e by {
        assert(starts[k] == g0all[k].1);
        assert(g0all[k].1 + g0all[k].2 <= e);
    }
    lemma_g1_end_ge(p.alpha_g1, starts, e);
    lemma_g1_steps_bounds(p.alpha_g1, starts, e);
    let gs = code_graphs(code);
    let n0 = g0all.len() as int;
    assert forall|j: int| 0 <= j < gs.len() implies sizes_match(#[trigger] gs[j]) && positions_valid(gs[j], clen)
        && edges_valid(gs[j].graph) by {
        if j < n0 {
            assert(gs[j] == code.g0s@[j]);
            assert(placed_as(code.g0s@[j], g0all[j], p.degree_g0 as int));
            assert(g0all[j].2 >= 0);
        } else {
            assert(gs[j] == code.g1s@[j - n0]);
            assert(placed_as(code.g1s@[j - n0], g1all[j - n0], p.degree_g1 as int));
            assert(g1all[j - n0].2 >= 0);
        }
    }
    lemma_all_sizes_match(gs);
}

/// Every g0 graph placed once the window `in_s..out_s` is next writes from
/// `out_s` on.
proof fn lemma_g0_outputs_from(t: int, a: OrionRatio, in_s: int, out_s: int)
    ensures
        forall|i: int|
            0 <= i < g0_steps(t, a, in_s, out_s).len() ==> (#[trigger] g0_steps(t, a, in_s, out_s)[i]).1 >= out_s,
    decreases out_s - in_s,
{
    let n = out_s - in_s;
    let len = scaled_round(n, a);
    if n > t && a.den > 0 && 0 <= len < n {
        lemma_g0_outputs_from(t, a, out_s, out_s + len);
        let s = g0_steps(t, a, in_s, out_s);
        let r = g0_steps(t, a, out_s, out_s + len);
        assert(s == seq![(in_s, out_s, len)] + r);
        assert forall|i: int| 0 <= i < s.len() implies (#[trigger] s[i]).1 >= out_s by {
            if i > 0 {
                assert(s[i] == r[i - 1]);
            }
        }
    }
}

/// Every g1 graph placed with the inputs `inputs`, none behind `cur`,
/// writes from `cur` on.
proof fn lemma_g1_outputs_from(a: OrionRatio, inputs: Seq<int>, cur: int)
    requires
        a.den > 0,
        forall|k: int| 0 <= k < inputs.len() ==> #[trigger] inputs[k] <= cur,
    ensures
        forall|i: int| 0 <= i < g1_steps(a, inputs, cur).len() ==> (#[trigger] g1_steps(a, inputs, cur)[i]).1 >= cur,
    decreases inputs.len(),
{
    if inputs.len() > 0 {
        let len = scaled_round(cur - inputs.last(), a);
        let s = g1_steps(a, inputs, cur);
        let r = g1_steps(a, inputs.drop_last(), cur + len);
        assert(s == seq![(inputs.last(), cur, len)] + r);
        lemma_scaled_round_nonneg(cur - inputs.last(), a);
        let rest = inputs.drop_last();
        assert forall|k: int| 0 <= k < rest.len() implies #[trigger] rest[k] <= cur + len by {
            assert(rest[k] == inputs[k]);
        }
        lemma_g1_outputs_from(a, inputs.drop_last(), cur + len);
        assert forall|i: int| 0 <= i < s.len() implies (#[trigger] s[i]).1 >= cur by {
            if i > 0 {
                assert(s[i] == r[i - 1]);
            }
        }
    }
}

/// Graphs that write from `l` on leave the first `l` symbols of the buffer
/// as they were.
proof fn lemma_encode_steps_keep_prefix(gs: Seq<OrionExpanderGraphPositioned>, buf: Seq<int>, scr: Seq<int>, k: int, l: int)
    requires
        0 <= l <= buf.len(),
        k <= gs.len(),
        forall|j: int| 0 <= j < gs.len() ==> (#[trigger] gs[j]).output_starts >= l,
    ensures
        encode_steps(gs, buf, scr, k).0.take(l) == buf.take(l),
    decreases k,
{
    if k > 0 {
        lemma_encode_steps_keep_prefix(gs, buf, scr, k - 1, l);
        lemma_encode_steps_len(gs, buf, scr, k - 1);
        let p = encode_steps(gs, buf, scr, k - 1);
        assert(gs[k - 1].output_starts >= l);
        assert(apply_buffer(p.0, p.1, gs[k - 1]).take(l) =~= p.0.take(l));
    }
}

/// A codeword begins with its message: encoding copies the message to the
/// front of the codeword, and every graph of a code instance writes behind
/// it.
pub proof fn lemma_codeword_begins_with_message(code: OrionCode, p: OrionCodeParameter, msg: Seq<int>)
    requires
        code_layout_ok(p, msg.len() as int),
        code_instance_of(code, p, msg.len() as int),
    ensures
        encode_message(code, msg).take(msg.len() as int) == msg,
{
    let l = msg.len() as int;
    let t = p.length_threshold_g0s as int;
    lemma_code_instance_well_formed(code, p, l);
    let g0all = code_g0_steps(p, l);
    let g1all = code_g1_steps(p, l);
    lemma_g0_outputs_from(t, p.alpha_g0, 0, l);
    lemma_g0_end_ge(t, p.alpha_g0, 0, l);
    lemma_g0_steps_bounds(t, p.alpha_g0, 0, l);
    let starts = output_starts_of(g0all);
    assert forall|k: int| 0 <= k < starts.len() implies #[trigger] starts[k] <= code_g0_end(p, l) by {
        assert(starts[k] == g0all[k].1);
        assert(g0all[k].1 + g0all[k].2 <= code_g0_end(p, l));
    }
    lemma_g1_outputs_from(p.alpha_g1, starts, code_g0_end(p, l));
    let gs = code_graphs(code);
    let n0 = code.g0s@.len() as int;
    assert forall|j: int| 0 <= j < gs.len() implies (#[trigger] gs[j]).output_starts >= l by {
        if j < n0 {
            assert(gs[j] == code.g0s@[j]);
            assert(placed_as(code.g0s@[j], g0all[j], p.degree_g0 as int));
            assert(g0all[j].1 >= l);
        } else {
            assert(gs[j] == code.g1s@[j - n0]);
            assert(placed_as(code.g1s@[j - n0], g1all[j - n0], p.degree_g1 as int));
            assert(g1all[j - n0].1 >= code_g0_end(p, l));
        }
    }
    let clen = code.codeword_len as int;
    let buf = msg + zeros(clen - l);
    lemma_encode_steps_keep_prefix(gs, buf, zeros(clen), gs.len() as int, l);
    assert(buf.take(l) =~= msg);
}

/// Every output of `g` in the buffer `cw` holds the sum of its neighbours in
/// `g`'s input range: `g` has run on `cw`, and nothing wrote over its
/// outputs or its inputs since.
pub open spec fn graph_ran_on(cw: Seq<int>, g: OrionExpanderGraphPositioned) -> bool {
    forall|k: int|
        #[trigger] in_output(g, k) ==> cw[k] == neighbor_sum(
            cw,
            g.input_starts as int,
            g.graph.neighborings@[k - g.output_starts]@,
        )
}

/// Two buffers that agree at the neighbours' positions give the same sum.
proof fn lemma_neighbor_sum_agree(a: Seq<int>, b: Seq<int>, offset: int, ns: Seq<usize>)
    requires
        forall|t: int| 0 <= t < ns.len() ==> a[offset + #[trigger] ns[t] as int] == b[offset + ns[t] as int],
    ensures
        neighbor_sum(a, offset, ns) == neighbor_sum(b, offset, ns),
    decreases ns.len(),
{
    if ns.len() > 0 {
        let ns2 = ns.drop_last();
        assert forall|t: int| 0 <= t < ns2.len() implies a[offset + #[trigger] ns2[t] as int] == b[offset
            + ns2[t] as int] by {
            assert(ns2[t] == ns[t]);
        }
        lemma_neighbor_sum_agree(a, b, offset, ns2);
        assert(ns.last() == ns[ns.len() - 1]);
    }
}

/// Graphs `a` up to `b` that write from `l` on leave the first `l` symbols
/// of the buffer as they were after the first `a` graphs.
proof fn lemma_encode_steps_keep_prefix_from(
    gs: Seq<OrionExpanderGraphPositioned>,
    buf: Seq<int>,
    scr: Seq<int>,
    a: int,
    b: int,
    l: int,
)
    requires
        0 <= a <= b <= gs.len(),
        0 <= l <= buf.len(),
        forall|j: int| a <= j < b ==> (#[trigger] gs[j]).output_starts >= l,
    ensures
        encode_steps(gs, buf, scr, b).0.take(l) == encode_steps(gs, buf, scr, a).0.take(l),
    decreases b - a,
{
    if b > a {
        lemma_encode_steps_keep_prefix_from(gs, buf, scr, a, b - 1, l);
        lemma_encode_steps_len(gs, buf, scr, b - 1);
        let p = encode_steps(gs, buf, scr, b - 1);
        assert(gs[b - 1].output_starts >= l);
        assert(apply_buffer(p.0, p.1, gs[b - 1]).take(l) =~= p.0.take(l));
    }
}

/// When each graph writes behind the outputs of the graphs before it, every
/// graph has run on the final buffer: its outputs hold the sums of their
/// neighbours there.
proof fn lemma_encode_steps_outputs(gs: Seq<OrionExpanderGraphPositioned>, buf: Seq<int>, scr: Seq<int>)
    requires
        scr.len() == buf.len(),
        forall|j: int|
            0 <= j < gs.len() ==> positions_valid(#[trigger] gs[j], buf.len() as int) && sizes_match(gs[j])
                && edges_valid(gs[j].graph) && gs[j].graph.neighborings@.len() == gs[j].graph.r_vertices_size,
        forall|j: int, j2: int|
            0 <= j < j2 < gs.len() ==> #[trigger] gs[j].output_ends + 1 <= #[trigger] gs[j2].output_starts,
    ensures
        forall|j: int|
            0 <= j < gs.len() ==> graph_ran_on(encode_steps(gs, buf, scr, gs.len() as int).0, #[trigger] gs[j]),
{
    let n = gs.len() as int;
    let cw = encode_steps(gs, buf, scr, n).0;
    lemma_encode_steps_len(gs, buf, scr, n);
    assert forall|j: int| 0 <= j < n implies graph_ran_on(cw, #[trigger] gs[j]) by {
        let g = gs[j];
        let p = encode_steps(gs, buf, scr, j);
        lemma_encode_steps_len(gs, buf, scr, j);
        let q0 = apply_buffer(p.0, p.1, g);
        assert(encode_steps(gs, buf, scr, j + 1).0 == q0);
        let l = g.output_ends + 1;
        assert forall|j2: int| j + 1 <= j2 < n implies (#[trigger] gs[j2]).output_starts >= l by {
            assert(gs[j].output_ends + 1 <= gs[j2].output_starts);
        }
        lemma_encode_steps_keep_prefix_from(gs, buf, scr, j + 1, n, l);
        assert forall|k: int| #[trigger] in_output(g, k) implies cw[k] == neighbor_sum(
            cw,
            g.input_starts as int,
            g.graph.neighborings@[k - g.output_starts]@,
        ) by {
            let i = k - g.output_starts;
            let ns = g.graph.neighborings@[i]@;
            assert(cw.take(l)[k] == q0.take(l)[k]);
            assert(q0[k] == neighbor_sum(p.0, g.input_starts as int, ns));
            assert forall|t: int| 0 <= t < ns.len() implies p.0[g.input_starts + #[trigger] ns[t] as int]
                == cw[g.input_starts + ns[t] as int] by {
                assert(ns[t] == g.graph.neighborings@[i]@[t]);
                assert(ns[t] < g.graph.l_vertices_size);
                let x = g.input_starts + ns[t] as int;
                assert(cw.take(l)[x] == q0.take(l)[x]);
                assert(!in_output(g, x));
            }
            lemma_neighbor_sum_agree(p.0, cw, g.input_starts as int, ns);
        }
    }
}

/// Each g0 graph placed from the window `in_s..out_s` writes behind the
/// outputs of the g0 graphs before it.
proof fn lemma_g0_ordered(t: int, a: OrionRatio, in_s: int, out_s: int)
    ensures
        forall|i: int, i2: int|
            0 <= i < i2 < g0_steps(t, a, in_s, out_s).len() ==> #[trigger] g0_steps(t, a, in_s, out_s)[i].1
                + g0_steps(t, a, in_s, out_s)[i].2 <= #[trigger] g0_steps(t, a, in_s, out_s)[i2].1,
    decreases out_s - in_s,
{
    let n = out_s - in_s;
    let len = scaled_round(n, a);
    if n > t && a.den > 0 && 0 <= len < n {
        lemma_g0_ordered(t, a, out_s, out_s + len);
        lemma_g0_outputs_from(t, a, out_s, out_s + len);
        let s = g0_steps(t, a, in_s, out_s);
        let r = g0_steps(t, a, out_s, out_s + len);
        assert(s == seq![(in_s, out_s, len)] + r);
        assert forall|i: int, i2: int| 0 <= i < i2 < s.len() implies #[trigger] s[i].1 + s[i].2 <= #[trigger] s[i2].1 by {
            assert(s[i2] == r[i2 - 1]);
            if i > 0 {
                assert(s[i] == r[i - 1]);
            }
        }
    }
}

/// Each g1 graph placed with the inputs `inputs`, none behind `cur`, writes
/// behind the outputs of the g1 graphs before it.
proof fn lemma_g1_ordered(a: OrionRatio, inputs: Seq<int>, cur: int)
    requires
        a.den > 0,
        forall|k: int| 0 <= k < inputs.len() ==> #[trigger] inputs[k] <= cur,
    ensures
        forall|i: int, i2: int|
            0 <= i < i2 < g1_steps(a, inputs, cur).len() ==> #[trigger] g1_steps(a, inputs, cur)[i].1 + g1_steps(
                a,
                inputs,
                cur,
            )[i].2 <= #[trigger] g1_steps(a, inputs, cur)[i2].1,
    decreases inputs.len(),
{
    if inputs.len() > 0 {
        let len = scaled_round(cur - inputs.last(), a);
        lemma_scaled_round_nonneg(cur - inputs.last(), a);
        let rest = inputs.drop_last();
        assert forall|k: int| 0 <= k < rest.len() implies #[trigger] rest[k] <= cur + len by {
            assert(rest[k] == inputs[k]);
        }
        lemma_g1_ordered(a, rest, cur + len);
        lemma_g1_outputs_from(a, rest, cur + len);
        let s = g1_steps(a, inputs, cur);
        let r = g1_steps(a, rest, cur + len);
        assert(s == seq![(inputs.last(), cur, len)] + r);
        assert forall|i: int, i2: int| 0 <= i < i2 < s.len() implies #[trigger] s[i].1 + s[i].2 <= #[trigger] s[i2].1 by {
            assert(s[i2] == r[i2 - 1]);
            if i > 0 {
                assert(s[i] == r[i - 1]);
            }
        }
    }
}

/// Running the graphs of a code instance from any buffer of the codeword's
/// length runs each g0 and each g1 graph on the result.
proof fn lemma_instance_graphs_run(code: OrionCode, p: OrionCodeParameter, msg_len: int, buf: Seq<int>, scr: Seq<int>)
    requires
        0 <= msg_len,
        code_layout_ok(p, msg_len),
        code_instance_of(code, p, msg_len),
        buf.len() == code.codeword_len,
        scr.len() == code.codeword_len,
    ensures
        forall|i: int|
            0 <= i < code.g0s@.len() ==> graph_ran_on(
                encode_steps(code_graphs(code), buf, scr, code_graphs(code).len() as int).0,
                #[trigger] code.g0s@[i],
            ),
        forall|i: int|
            0 <= i < code.g1s@.len() ==> graph_ran_on(
                encode_steps(code_graphs(code), buf, scr, code_graphs(code).len() as int).0,
                #[trigger] code.g1s@[i],
            ),
{
    let l = msg_len;
    let t = p.length_threshold_g0s as int;
    lemma_code_instance_well_formed(code, p, l);
    let g0all = code_g0_steps(p, l);
    let g1all = code_g1_steps(p, l);
    let e = code_g0_end(p, l);
    lemma_g0_ordered(t, p.alpha_g0, 0, l);
    lemma_g0_outputs_from(t, p.alpha_g0, 0, l);
    lemma_g0_end_ge(t, p.alpha_g0, 0, l);
    lemma_g0_steps_bounds(t, p.alpha_g0, 0, l);
    let starts = output_starts_of(g0all);
    assert forall|k: int| 0 <= k < starts.len() implies #[trigger] starts[k] <= e by {
        assert(starts[k] == g0all[k].1);
        assert(g0all[k].1 + g0all[k].2 <= e);
    }
    lemma_g1_outputs_from(p.alpha_g1, starts, e);
    lemma_g1_ordered(p.alpha_g1, starts, e);
    let gs = code_graphs(code);
    let n0 = code.g0s@.len() as int;
    let clen = code.codeword_len as int;
    lemma_first_mismatch_props(gs, 0);
    assert forall|j: int| 0 <= j < gs.len() implies positions_valid(#[trigger] gs[j], clen) && sizes_match(gs[j])
        && edges_valid(gs[j].graph) && gs[j].graph.neighborings@.len() == gs[j].graph.r_vertices_size by {
        let g = gs[j];
        if j < n0 {
            assert(g == code.g0s@[j]);
            assert(placed_as(code.g0s@[j], g0all[j], p.degree_g0 as int));
        } else {
            assert(g == code.g1s@[j - n0]);
            assert(placed_as(code.g1s@[j - n0], g1all[j - n0], p.degree_g1 as int));
        }
        let samples = choose|samples: Seq<Seq<usize>>|
            samples_valid(samples, g.graph.l_vertices_size as int, g.graph.r_vertices_size as int, if g.graph.r_vertices_size
                < (if j < n0 { p.degree_g0 } else { p.degree_g1 }) {
                g.graph.r_vertices_size as int
            } else {
                (if j < n0 { p.degree_g0 } else { p.degree_g1 }) as int
            }) && #[trigger] built_from(g.graph, samples);
        assert(built_from(g.graph, samples));
    }
    assert forall|j: int, j2: int| 0 <= j < j2 < gs.len() implies #[trigger] gs[j].output_ends + 1
        <= #[trigger] gs[j2].output_starts by {
        if j2 < n0 {
            assert(gs[j] == code.g0s@[j] && gs[j2] == code.g0s@[j2]);
            assert(placed_as(code.g0s@[j], g0all[j], p.degree_g0 as int));
            assert(placed_as(code.g0s@[j2], g0all[j2], p.degree_g0 as int));
            assert(g0all[j].1 + g0all[j].2 <= g0all[j2].1);
        } else if j < n0 {
            assert(gs[j] == code.g0s@[j] && gs[j2] == code.g1s@[j2 - n0]);
            assert(placed_as(code.g0s@[j], g0all[j], p.degree_g0 as int));
            assert(placed_as(code.g1s@[j2 - n0], g1all[j2 - n0], p.degree_g1 as int));
            assert(g0all[j].1 + g0all[j].2 <= e);
            assert(g1all[j2 - n0].1 >= e);
        } else {
            assert(gs[j] == code.g1s@[j - n0] && gs[j2] == code.g1s@[j2 - n0]);
            assert(placed_as(code.g1s@[j - n0], g1all[j - n0], p.degree_g1 as int));
            assert(placed_as(code.g1s@[j2 - n0], g1all[j2 - n0], p.degree_g1 as int));
            assert(g1all[j - n0].1 + g1all[j - n0].2 <= g1all[j2 - n0].1);
        }
    }
    lemma_encode_steps_outputs(gs, buf, scr);
    lemma_encode_steps_len(gs, buf, scr, gs.len() as int);
    let cw = encode_steps(gs, buf, scr, gs.len() as int).0;
    assert forall|i: int| 0 <= i < code.g0s@.len() implies graph_ran_on(cw, #[trigger] code.g0s@[i]) by {
        assert(gs[i] == code.g0s@[i]);
    }
    assert forall|i: int| 0 <= i < code.g1s@.len() implies graph_ran_on(cw, #[trigger] code.g1s@[i]) by {
        assert(gs[n0 + i] == code.g1s@[i]);
    }
}


/// Encoding runs every graph of a code instance on the codeword, the g0
/// graphs and then the g1 graphs: the codeword of `msg` has the code's
/// length, begins with `msg`, and each output of each g0 and each g1 graph
/// holds the sum of that output's neighbours in the graph's input range of
/// the codeword.
pub proof fn lemma_codeword_graph_outputs(code: OrionCode, p: OrionCodeParameter, msg: Seq<int>)
    requires
        code_layout_ok(p, msg.len() as int),
        code_instance_of(code, p, msg.len() as int),
    ensures
        encode_message(code, msg).len() == code.codeword_len,
        encode_message(code, msg).take(msg.len() as int) == msg,
        forall|i: int| 0 <= i < code.g0s@.len() ==> graph_ran_on(encode_message(code, msg), #[trigger] code.g0s@[i]),
        forall|i: int| 0 <= i < code.g1s@.len() ==> graph_ran_on(encode_message(code, msg), #[trigger] code.g1s@[i]),
{
    let l = msg.len() as int;
    let clen = code.codeword_len as int;
    lemma_code_instance_well_formed(code, p, l);
    lemma_codeword_begins_with_message(code, p, msg);
    let buf = msg + zeros(clen - l);
    let scr = zeros(clen);
    lemma_instance_graphs_run(code, p, l, buf, scr);
    lemma_encode_steps_len(code_graphs(code), buf, scr, code_graphs(code).len() as int);
}

/// Encoding in place runs every graph of a code instance on the buffer,
/// whatever it held beyond the message: the buffer begins with the message,
/// and each output of each g0 and each g1 graph holds the sum of that
/// output's neighbours in the graph's input range of the buffer.
pub proof fn lemma_encoded_buffer_graph_outputs(code: OrionCode, p: OrionCodeParameter, msg: Seq<int>, old_buffer: Seq<int>)
    requires
        code_layout_ok(p, msg.len() as int),
        code_instance_of(code, p, msg.len() as int),
        old_buffer.len() == code.codeword_len,
    ensures
        first_mismatch(code_graphs(code)) == code_graphs(code).len(),
        ({
            let cw = encode_steps(
                code_graphs(code),
                encode_input(msg, old_buffer),
                zeros(code.codeword_len as int),
                first_mismatch(code_graphs(code)),
            ).0;
            &&& cw.len() == code.codeword_len
            &&& cw.take(msg.len() as int) == msg
            &&& forall|i: int| 0 <= i < code.g0s@.len() ==> graph_ran_on(cw, #[trigger] code.g0s@[i])
            &&& forall|i: int| 0 <= i < code.g1s@.len() ==> graph_ran_on(cw, #[trigger] code.g1s@[i])
        }),
{
    let l = msg.len() as int;
    let clen = code.codeword_len as int;
    lemma_code_instance_well_formed(code, p, l);
    let gs = code_graphs(code);
    let buf = encode_input(msg, old_buffer);
    let scr = zeros(clen);
    assert(buf.len() == clen);
    lemma_instance_graphs_run(code, p, l, buf, scr);
    lemma_encode_steps_len(gs, buf, scr, gs.len() as int);
    // the message stays in front: every graph writes behind it
    let t = p.length_threshold_g0s as int;
    let g0all = code_g0_steps(p, l);
    let g1all = code_g1_steps(p, l);
    lemma_g0_outputs_from(t, p.alpha_g0, 0, l);
    lemma_g0_end_ge(t, p.alpha_g0, 0, l);
    lemma_g0_steps_bounds(t, p.alpha_g0, 0, l);
    let starts = output_starts_of(g0all);
    assert forall|k: int| 0 <= k < starts.len() implies #[trigger] starts[k] <= code_g0_end(p, l) by {
        assert(starts[k] == g0all[k].1);
        assert(g0all[k].1 + g0all[k].2 <= code_g0_end(p, l));
    }
    lemma_g1_outputs_from(p.alpha_g1, starts, code_g0_end(p, l));
    let n0 = code.g0s@.len() as int;
    assert forall|j: int| 0 <= j < gs.len() implies (#[trigger] gs[j]).output_starts >= l by {
        if j < n0 {
            assert(gs[j] == code.g0s@[j]);
            assert(placed_as(code.g0s@[j], g0all[j], p.degree_g0 as int));
        } else {
            assert(gs[j] == code.g1s@[j - n0]);
            assert(placed_as(code.g1s@[j - n0], g1all[j - n0], p.degree_g1 as int));
        }
    }
    lemma_encode_steps_keep_prefix(gs, buf, scr, gs.len() as int, l);
    assert(buf.take(l) =~= msg);
}

/// A code instance samples each graph as a random left-regular graph whose
/// degree is the parameters' degree (`degree_g0` for the g0 graphs,
/// `degree_g1` for the g1 graphs), capped at the graph's number of outputs:
/// each input is adjacent to that many distinct outputs.
pub proof fn lemma_code_graph_degrees(code: OrionCode, p: OrionCodeParameter, msg_len: int)
    requires
        code_instance_of(code, p, msg_len),
    ensures
        forall|i: int|
            0 <= i < code.g0s@.len() ==> sampled_graph(
                (#[trigger] code.g0s@[i]).graph,
                if p.degree_g0 < code.g0s@[i].graph.r_vertices_size {
                    p.degree_g0 as int
                } else {
                    code.g0s@[i].graph.r_vertices_size as int
                },
            ),
        forall|i: int|
            0 <= i < code.g1s@.len() ==> sampled_graph(
                (#[trigger] code.g1s@[i]).graph,
                if p.degree_g1 < code.g1s@[i].graph.r_vertices_size {
                    p.degree_g1 as int
                } else {
                    code.g1s@[i].graph.r_vertices_size as int
                },
            ),
{
    assert forall|i: int| 0 <= i < code.g0s@.len() implies sampled_graph(
        (#[trigger] code.g0s@[i]).graph,
        if p.degree_g0 < code.g0s@[i].graph.r_vertices_size {
            p.degree_g0 as int
        } else {
            code.g0s@[i].graph.r_vertices_size as int
        },
    ) by {
        assert(placed_as(code.g0s@[i], code_g0_steps(p, msg_len)[i], p.degree_g0 as int));
    }
    assert forall|i: int| 0 <= i < code.g1s@.len() implies sampled_graph(
        (#[trigger] code.g1s@[i]).graph,
        if p.degree_g1 < code.g1s@[i].graph.r_vertices_size {
            p.degree_g1 as int
        } else {
            code.g1s@[i].graph.r_vertices_size as int
        },
    ) by {
        assert(placed_as(code.g1s@[i], code_g1_steps(p, msg_len)[i], p.degree_g1 as int));
    }
}

impl OrionCode {
    /// A random code instance for messages of length `msg_len`: g0 graphs
    /// shrink the message window by `alpha_g0` until it is at most
    /// `length_threshold_g0s` long, then g1 graphs, one behind each g0 output
    /// from the last to the first, extend the codeword by `alpha_g1` of the
    /// symbols written since that output started.
    pub fn new(params: OrionCodeParameter, msg_len: usize, rng: &mut StdRng) -> (code: Self)
        requires
            code_layout_ok(params, msg_len as int),
        ensures
            code_instance_of(code, params, msg_len as int),
            code_well_formed(code),
            forall|i: int|
                0 <= i < code.g0s@.len() ==> sampled_graph(
                    (#[trigger] code.g0s@[i]).graph,
                    if params.degree_g0 < code.g0s@[i].graph.r_vertices_size {
                        params.degree_g0 as int
                    } else {
                        code.g0s@[i].graph.r_vertices_size as int
                    },
                ),
            forall|i: int|
                0 <= i < code.g1s@.len() ==> sampled_graph(
                    (#[trigger] code.g1s@[i]).graph,
                    if params.degree_g1 < code.g1s@[i].graph.r_vertices_size {
                        params.degree_g1 as int
                    } else {
                        code.g1s@[i].graph.r_vertices_size as int
                    },
                ),
    {
        let t = params.length_threshold_g0s;
        let a0 = params.alpha_g0;
        let a1 = params.alpha_g1;
        let ghost g0all = code_g0_steps(params, msg_len as int);
        let ghost e = code_g0_end(params, msg_len as int);
        let ghost clen = code_len_of(params, msg_len as int);
        let mut starts: Vec<usize> = Vec::new();
        let mut g0s: Vec<OrionExpanderGraphPositioned> = Vec::new();
        let mut g1s: Vec<OrionExpanderGraphPositioned> = Vec::new();
        let mut in_s: usize = 0;
        let mut out_s: usize = msg_len;
        let ghost mut done: Seq<(int, int, int)> = Seq::empty();
        proof {
            lemma_g0_end_ge(t as int, a0, 0, msg_len as int);
            assert(g0all =~= done + g0all);
            lemma_g0_steps_bounds(t as int, a0, 0, msg_len as int);
            assert forall|k: int| 0 <= k < output_starts_of(g0all).len() implies #[trigger] output_starts_of(
                g0all,
            )[k] <= e by {
                assert(output_starts_of(g0all)[k] == g0all[k].1);
                assert(g0all[k].1 + g0all[k].2 <= e);
            }
            lemma_g1_end_ge(a1, output_starts_of(g0all), e);
        }
        while out_s - in_s > t
            invariant
                in_s <= out_s,
                msg_len <= out_s,
                t == params.length_threshold_g0s,
                a0 == params.alpha_g0,
                code_params_valid(params),
                g0all == code_g0_steps(params, msg_len as int),
                e == code_g0_end(params, msg_len as int),
                g0all == done + g0_steps(t as int, a0, in_s as int, out_s as int),
                g0_progresses(t as int, a0, in_s as int, out_s as int),
                g0_end(t as int, a0, in_s as int, out_s as int) == e,
                e <= clen,
                clen <= usize::MAX,
                starts@.len() > 0 ==> out_s >= 1,
                starts@.len() == done.len(),
                forall|i: int| 0 <= i < done.len() ==> #[trigger] starts@[i] == done[i].1,
                g0s@.len() == done.len(),
                forall|i: int|
                    0 <= i < done.len() ==> placed_as(#[trigger] g0s@[i], done[i], params.degree_g0 as int),
                forall|i: int|
                    0 <= i < done.len() ==> (#[trigger] done[i]).0 <= done[i].1 && done[i].1 + done[i].2 <= out_s,
            decreases out_s - in_s,
        {
            let n = out_s - in_s;
            let len = round_scaled(n, a0);
            let ghost step = (in_s as int, out_s as int, len as int);
            proof {
                assert(g0_steps(t as int, a0, in_s as int, out_s as int) == seq![step] + g0_steps(
                    t as int,
                    a0,
                    out_s as int,
                    out_s + len,
                ));
                assert(g0all[done.len() as int] == step);
                lemma_g0_end_ge(t as int, a0, out_s as int, out_s + len);
            }
            let degree = if params.degree_g0 < len {
                params.degree_g0
            } else {
                len
            };
            let g = OrionExpanderGraphPositioned::new(in_s, out_s, out_s + len - 1, degree, rng);
            g0s.push(g);
            starts.push(out_s);
            proof {
                done = done.push(step);
                assert(g0all =~= done + g0_steps(t as int, a0, out_s as int, out_s + len));
            }
            in_s = out_s;
            out_s = out_s + len;
        }
        proof {
            assert(done =~= g0all);
            assert(as_ints(starts@) =~= output_starts_of(g0all));
        }
        let ghost g1all = code_g1_steps(params, msg_len as int);
        let ghost mut done1: Seq<(int, int, int)> = Seq::empty();
        let mut cur: usize = out_s;
        proof {
            assert(g1all =~= done1 + g1all);
        }
        while starts.len() > 0
            invariant
                a1 == params.alpha_g1,
                code_params_valid(params),
                g0all == code_g0_steps(params, msg_len as int),
                g1all == code_g1_steps(params, msg_len as int),
                g1all == done1 + g1_steps(a1, as_ints(starts@), cur as int),
                g1_end(a1, as_ints(starts@), cur as int) == clen,
                clen <= usize::MAX,
                msg_len <= cur,
                e <= cur,
                starts@.len() > 0 ==> cur >= 1,
                forall|k: int| 0 <= k < starts@.len() ==> #[trigger] starts@[k] <= cur,
                g0s@.len() == g0all.len(),
                forall|i: int|
                    0 <= i < g0all.len() ==> placed_as(#[trigger] g0s@[i], g0all[i], params.degree_g0 as int),
                forall|i: int|
                    0 <= i < g0all.len() ==> (#[trigger] g0all[i]).0 <= g0all[i].1 && g0all[i].1 + g0all[i].2 <= e,
                g1s@.len() == done1.len(),
                forall|i: int|
                    0 <= i < done1.len() ==> placed_as(#[trigger] g1s@[i], done1[i], params.degree_g1 as int),
                forall|i: int|
                    0 <= i < done1.len() ==> (#[trigger] done1[i]).0 <= done1[i].1 && done1[i].1 + done1[i].2
                        <= cur,
            decreases starts@.len(),
        {
            let ghost before = starts@;
            let inp = starts.pop().unwrap();
            proof {
                assert(starts@ =~= before.drop_last());
                assert(inp == before[before.len() - 1]);
                assert(as_ints(starts@) =~= as_ints(before).drop_last());
                assert(as_ints(before).last() == inp);
            }
            let n = cur - inp;
            let len = round_scaled(n, a1);
            let ghost step = (inp as int, cur as int, len as int);
            proof {
                assert(g1_steps(a1, as_ints(before), cur as int) == seq![step] + g1_steps(
                    a1,
                    as_ints(starts@),
                    cur + len,
                ));
                assert(g1all[done1.len() as int] == step);
                assert forall|k: int| 0 <= k < as_ints(starts@).len() implies #[trigger] as_ints(starts@)[k]
                    <= cur + len by {
                    assert(starts@[k] == before[k]);
                }
                lemma_g1_end_ge(a1, as_ints(starts@), cur + len);
            }
            let degree = if params.degree_g1 < len {
                params.degree_g1
            } else {
                len
            };
            let g = OrionExpanderGraphPositioned::new(inp, cur, cur + len - 1, degree, rng);
            g1s.push(g);
            proof {
                done1 = done1.push(step);
                assert(g1all =~= done1 + g1_steps(a1, as_ints(starts@), cur + len));
                assert forall|k: int| 0 <= k < starts@.len() implies #[trigger] starts@[k] <= cur + len by {
                    assert(starts@[k] == before[k]);
                }
            }
            cur = cur + len;
        }
        proof {
            assert(done1 =~= g1all);
        }
        let code = OrionCode { hamming_weight: params.hamming_weight, msg_len, codeword_len: cur, g0s, g1s };
        proof {
            lemma_code_instance_well_formed(code, params, msg_len as int);
            lemma_code_graph_degrees(code, params, msg_len as int);
        }
        code
    }

    /// The code's relative distance.
    pub fn hamming_weight(&self) -> (r: OrionRatio)
        ensures
            r == self.hamming_weight,
    {
        self.hamming_weight
    }
}

} // verus!
