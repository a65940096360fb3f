//! A structured encoding of the optimizer's state: individuals, datasets
//! and whole populations round-trip through a flat, self-delimiting
//! sequence of words.  The textual framing of that sequence for a foreign
//! caller is the boundary's concern; the core proves that decoding is the
//! exact inverse of encoding.
//!
//! Every `decode` function promises two things: whatever it accepts
//! re-encodes to exactly the words it consumed (soundness), and every
//! encoded value is accepted (completeness).  Together these are the
//! round trip: `decode` after `encode` reproduces an equal value.

use vstd::prelude::*;
use crate::Error;
use crate::fixed::GENE_LIMIT;
use crate::individual::Individual;
use crate::population::Population;
use crate::score::genes_bounded;
use crate::training::{TrainingData, values_bounded, ROW_LIMIT, COL_LIMIT};

verus! {

/// Each gene widened to a word.
pub open spec fn widen_genes(g: Seq<i64>) -> Seq<i128> {
    g.map_values(|x: i64| x as i128)
}

/// Each byte widened to a word.
pub open spec fn widen_bytes(b: Seq<u8>) -> Seq<i128> {
    b.map_values(|x: u8| x as i128)
}

/// An individual's words: gene count, genes, cost, age.
pub open spec fn spec_encode_individual(c: Individual) -> Seq<i128> {
    seq![c.genotype@.len() as i128] + widen_genes(c.genotype@) + seq![
        c.fitness as i128,
        c.age as i128,
    ]
}

/// A row's words: cell count, cells.
pub open spec fn spec_encode_row(row: Seq<i64>) -> Seq<i128> {
    seq![row.len() as i128] + widen_genes(row)
}

/// The rows' words, in order.
pub open spec fn spec_encode_rows(rows: Seq<Seq<i64>>) -> Seq<i128>
    decreases rows.len(),
{
    if rows.len() == 0 {
        Seq::empty()
    } else {
        spec_encode_row(rows[0]) + spec_encode_rows(rows.drop_first())
    }
}

/// A dataset's words: genotype size, row count, rows.
pub open spec fn spec_encode_training(t: TrainingData) -> Seq<i128> {
    seq![t.genotype_size as i128, t.rows().len() as i128] + spec_encode_rows(t.rows())
}

/// A header label's words: byte count, bytes.
pub open spec fn spec_encode_label(l: Seq<u8>) -> Seq<i128> {
    seq![l.len() as i128] + widen_bytes(l)
}

/// The header labels' words, in order.
pub open spec fn spec_encode_labels(ls: Seq<Seq<u8>>) -> Seq<i128>
    decreases ls.len(),
{
    if ls.len() == 0 {
        Seq::empty()
    } else {
        spec_encode_label(ls[0]) + spec_encode_labels(ls.drop_first())
    }
}

/// The individuals' words, in order.
pub open spec fn spec_encode_individuals(cs: Seq<Individual>) -> Seq<i128>
    decreases cs.len(),
{
    if cs.len() == 0 {
        Seq::empty()
    } else {
        spec_encode_individual(cs[0]) + spec_encode_individuals(cs.drop_first())
    }
}

/// A population's words: the five configuration values, the dataset, the
/// cached best slot, the individual count and individuals, the label count
/// and labels.
pub open spec fn spec_encode_population(p: Population) -> Seq<i128> {
    seq![
        p.max_children_size as i128,
        p.genotype_size as i128,
        p.crossover_chance as i128,
        p.mutation_chance as i128,
        p.max_age as i128,
    ] + spec_encode_training(p.training_data) + spec_encode_individual(p.best) + seq![
        p.individuals@.len() as i128,
    ] + spec_encode_individuals(p.individuals@) + seq![p.header@.len() as i128]
        + spec_encode_labels(p.header.deep_view())
}

/// Appending one row appends its words.
pub proof fn lemma_encode_rows_push(rows: Seq<Seq<i64>>, row: Seq<i64>)
    ensures
        spec_encode_rows(rows.push(row)) == spec_encode_rows(rows) + spec_encode_row(row),
    decreases rows.len(),
{
    if rows.len() == 0 {
        assert(rows.push(row).drop_first() =~= Seq::<Seq<i64>>::empty());
        assert(rows.push(row)[0] == row);
        assert(spec_encode_rows(Seq::<Seq<i64>>::empty()) =~= Seq::<i128>::empty());
        assert(spec_encode_rows(rows.push(row)) =~= spec_encode_rows(rows)
            + spec_encode_row(row));
    } else {
        assert(rows.push(row).drop_first() =~= rows.drop_first().push(row));
        lemma_encode_rows_push(rows.drop_first(), row);
        assert(spec_encode_rows(rows.push(row)) =~= spec_encode_rows(rows)
            + spec_encode_row(row));
    }
}

/// Appending one label appends its words.
pub proof fn lemma_encode_labels_push(ls: Seq<Seq<u8>>, l: Seq<u8>)
    ensures
        spec_encode_labels(ls.push(l)) == spec_encode_labels(ls) + spec_encode_label(l),
    decreases ls.len(),
{
    if ls.len() == 0 {
        assert(ls.push(l).drop_first() =~= Seq::<Seq<u8>>::empty());
        assert(ls.push(l)[0] == l);
        assert(spec_encode_labels(Seq::<Seq<u8>>::empty()) =~= Seq::<i128>::empty());
        assert(spec_encode_labels(ls.push(l)) =~= spec_encode_labels(ls) + spec_encode_label(l));
    } else {
        assert(ls.push(l).drop_first() =~= ls.drop_first().push(l));
        lemma_encode_labels_push(ls.drop_first(), l);
        assert(spec_encode_labels(ls.push(l)) =~= spec_encode_labels(ls) + spec_encode_label(l));
    }
}

/// Appending one individual appends its words.
pub proof fn lemma_encode_individuals_push(cs: Seq<Individual>, c: Individual)
    ensures
        spec_encode_individuals(cs.push(c)) == spec_encode_individuals(cs)
            + spec_encode_individual(c),
    decreases cs.len(),
{
    if cs.len() == 0 {
        assert(cs.push(c).drop_first() =~= Seq::<Individual>::empty());
        assert(cs.push(c)[0] == c);
        assert(spec_encode_individuals(Seq::<Individual>::empty()) =~= Seq::<i128>::empty());
        assert(spec_encode_individuals(cs.push(c)) =~= spec_encode_individuals(cs)
            + spec_encode_individual(c));
    } else {
        assert(cs.push(c).drop_first() =~= cs.drop_first().push(c));
        lemma_encode_individuals_push(cs.drop_first(), c);
        assert(spec_encode_individuals(cs.push(c)) =~= spec_encode_individuals(cs)
            + spec_encode_individual(c));
    }
}

/// Writes one individual's words onto the end of `out`.
fn push_individual(out: &mut Vec<i128>, c: &Individual)
    ensures
        final(out)@ == old(out)@ + spec_encode_individual(*c),
{
    let ghost base = out@;
    out.push(c.genotype.len() as i128);
    let mut i: usize = 0;
    #[verifier::loop_isolation(false)]
    while i < c.genotype.len()
        invariant
            0 <= i <= c.genotype@.len(),
            out@ == base + seq![c.genotype@.len() as i128] + widen_genes(
                c.genotype@.subrange(0, i as int),
            ),
        decreases c.genotype@.len() - i,
    {
        out.push(c.genotype[i] as i128);
        proof {
            assert(c.genotype@.subrange(0, i + 1) =~= c.genotype@.subrange(0, i as int).push(
                c.genotype@[i as int],
            ));
            assert(widen_genes(c.genotype@.subrange(0, i + 1)) =~= widen_genes(
                c.genotype@.subrange(0, i as int),
            ).push(c.genotype@[i as int] as i128));
        }
        i = i + 1;
    }
    out.push(c.fitness);
    out.push(c.age as i128);
    proof {
        assert(c.genotype@.subrange(0, c.genotype@.len() as int) =~= c.genotype@);
        assert(out@ =~= base + spec_encode_individual(*c));
    }
}

/// Serializes one individual.
pub fn encode_individual(c: &Individual) -> (r: Vec<i128>)
    ensures
        r@ == spec_encode_individual(*c),
{
    let mut out: Vec<i128> = Vec::new();
    push_individual(&mut out, c);
    proof {
        assert(out@ =~= spec_encode_individual(*c));
    }
    out
}

/// Writes one dataset's words onto the end of `out`.
fn push_training(out: &mut Vec<i128>, t: &TrainingData)
    ensures
        final(out)@ == old(out)@ + spec_encode_training(*t),
{
    let ghost base = out@;
    out.push(t.genotype_size as i128);
    out.push(t.data.len() as i128);
    let ghost head = base + seq![t.genotype_size as i128, t.rows().len() as i128];
    proof {
        assert(out@ =~= head + spec_encode_rows(t.rows().subrange(0, 0)));
    }
    let mut i: usize = 0;
    #[verifier::loop_isolation(false)]
    while i < t.data.len()
        invariant
            0 <= i <= t.rows().len(),
            t.rows().len() == t.data@.len(),
            out@ == head + spec_encode_rows(t.rows().subrange(0, i as int)),
        decreases t.data@.len() - i,
    {
        let ghost row = t.rows()[i as int];
        proof {
            assert(row =~= t.data@[i as int]@);
        }
        let r = &t.data[i];
        out.push(r.len() as i128);
        let ghost mid = out@;
        let mut j: usize = 0;
        while j < r.len()
            invariant
                0 <= j <= r@.len(),
                r@ == row,
                out@ == mid + widen_genes(row.subrange(0, j as int)),
            decreases r@.len() - j,
        {
            out.push(r[j] as i128);
            proof {
                assert(row.subrange(0, j + 1) =~= row.subrange(0, j as int).push(row[j as int]));
                assert(widen_genes(row.subrange(0, j + 1)) =~= widen_genes(
                    row.subrange(0, j as int),
                ).push(row[j as int] as i128));
            }
            j = j + 1;
        }
        proof {
            assert(row.subrange(0, row.len() as int) =~= row);
            assert(out@ =~= head + spec_encode_rows(t.rows().subrange(0, i as int))
                + spec_encode_row(row));
            assert(t.rows().subrange(0, i + 1) =~= t.rows().subrange(0, i as int).push(row));
            lemma_encode_rows_push(t.rows().subrange(0, i as int), row);
        }
        i = i + 1;
    }
    proof {
        assert(t.rows().subrange(0, t.rows().len() as int) =~= t.rows());
        assert(out@ =~= base + spec_encode_training(*t));
    }
}

/// Serializes one dataset.
pub fn encode_training(t: &TrainingData) -> (r: Vec<i128>)
    ensures
        r@ == spec_encode_training(*t),
{
    let mut out: Vec<i128> = Vec::new();
    push_training(&mut out, t);
    proof {
        assert(out@ =~= spec_encode_training(*t));
    }
    out
}

/// Serializes a whole population, its dataset, best slot, individuals and
/// header included.
pub fn encode_population(p: &Population) -> (r: Vec<i128>)
    ensures
        r@ == spec_encode_population(*p),
{
    let mut out: Vec<i128> = Vec::new();
    out.push(p.max_children_size as i128);
    out.push(p.genotype_size as i128);
    out.push(p.crossover_chance as i128);
    out.push(p.mutation_chance as i128);
    out.push(p.max_age as i128);
    push_training(&mut out, &p.training_data);
    push_individual(&mut out, &p.best);
    out.push(p.individuals.len() as i128);
    let ghost head = out@;
    proof {
        assert(out@ =~= head + spec_encode_individuals(p.individuals@.subrange(0, 0)));
    }
    let mut i: usize = 0;
    #[verifier::loop_isolation(false)]
    while i < p.individuals.len()
        invariant
            0 <= i <= p.individuals@.len(),
            out@ == head + spec_encode_individuals(p.individuals@.subrange(0, i as int)),
        decreases p.individuals@.len() - i,
    {
        push_individual(&mut out, &p.individuals[i]);
        proof {
            assert(p.individuals@.subrange(0, i + 1) =~= p.individuals@.subrange(
                0,
                i as int,
            ).push(p.individuals@[i as int]));
            lemma_encode_individuals_push(
                p.individuals@.subrange(0, i as int),
                p.individuals@[i as int],
            );
        }
        i = i + 1;
    }
    proof {
        assert(p.individuals@.subrange(0, p.individuals@.len() as int) =~= p.individuals@);
    }
    out.push(p.header.len() as i128);
    let ghost head2 = out@;
    proof {
        assert(p.header.deep_view().subrange(0, 0) =~= Seq::<Seq<u8>>::empty());
        assert(out@ =~= head2 + spec_encode_labels(p.header.deep_view().subrange(0, 0)));
    }
    let mut i: usize = 0;
    #[verifier::loop_isolation(false)]
    while i < p.header.len()
        invariant
            0 <= i <= p.header@.len(),
            p.header.deep_view().len() == p.header@.len(),
            out@ == head2 + spec_encode_labels(p.header.deep_view().subrange(0, i as int)),
        decreases p.header@.len() - i,
    {
        let ghost label = p.header.deep_view()[i as int];
        proof {
            assert(label =~= p.header@[i as int]@);
        }
        let l = &p.header[i];
        out.push(l.len() as i128);
        let ghost mid = out@;
        let mut j: usize = 0;
        while j < l.len()
            invariant
                0 <= j <= l@.len(),
                l@ == label,
                out@ == mid + widen_bytes(label.subrange(0, j as int)),
            decreases l@.len() - j,
        {
            out.push(l[j] as i128);
            proof {
                assert(label.subrange(0, j + 1) =~= label.subrange(0, j as int).push(
                    label[j as int],
                ));
                assert(widen_bytes(label.subrange(0, j + 1)) =~= widen_bytes(
                    label.subrange(0, j as int),
                ).push(label[j as int] as i128));
            }
            j = j + 1;
        }
        proof {
            assert(label.subrange(0, label.len() as int) =~= label);
            assert(out@ =~= head2 + spec_encode_labels(
                p.header.deep_view().subrange(0, i as int),
            ) + spec_encode_label(label));
            assert(p.header.deep_view().subrange(0, i + 1) =~= p.header.deep_view().subrange(
                0,
                i as int,
            ).push(label));
            lemma_encode_labels_push(p.header.deep_view().subrange(0, i as int), label);
        }
        i = i + 1;
    }
    proof {
        assert(p.header.deep_view().subrange(0, p.header.deep_view().len() as int)
            =~= p.header.deep_view());
        assert(out@ =~= spec_encode_population(*p));
    }
    out
}

/// `enc` occupies the words of `s` from `pos` on.
pub open spec fn prefix_at(enc: Seq<i128>, s: Seq<i128>, pos: int) -> bool {
    &&& 0 <= pos
    &&& pos + enc.len() <= s.len()
    &&& s.subrange(pos, pos + enc.len()) == enc
}

/// A concatenation is prefixed somewhere exactly when its parts are
/// prefixed back to back.
pub proof fn lemma_prefix_split(x: Seq<i128>, y: Seq<i128>, s: Seq<i128>, pos: int)
    requires
        prefix_at(x + y, s, pos),
    ensures
        prefix_at(x, s, pos),
        prefix_at(y, s, pos + x.len()),
{
    let xy = x + y;
    assert forall|j: int| 0 <= j < xy.len() implies s[pos + j] == xy[j] by {
        assert(s.subrange(pos, pos + xy.len())[j] == s[pos + j]);
    }
    assert(s.subrange(pos, pos + x.len()) =~= x);
    assert forall|j: int| 0 <= j < y.len() implies s[pos + x.len() + j] == y[j] by {
        assert(xy[x.len() + j] == y[j]);
    }
    assert(s.subrange(pos + x.len(), pos + x.len() + y.len()) =~= y);
}

/// `a` and `b` carry the same genotype, cost and age.
pub open spec fn same_individual(a: Individual, b: Individual) -> bool {
    &&& a.genotype@ == b.genotype@
    &&& a.fitness == b.fitness
    &&& a.age == b.age
}

/// An individual's words determine it: two individuals whose encodings
/// begin at the same place in the same stream are the same individual.
pub proof fn lemma_individual_unique(a: Individual, b: Individual, s: Seq<i128>, pos: int)
    requires
        prefix_at(spec_encode_individual(a), s, pos),
        prefix_at(spec_encode_individual(b), s, pos),
    ensures
        same_individual(a, b),
        spec_encode_individual(a) == spec_encode_individual(b),
{
    let ea = spec_encode_individual(a);
    let eb = spec_encode_individual(b);
    assert(a.genotype.len() == a.genotype@.len());
    assert(b.genotype.len() == b.genotype@.len());
    assert(s.subrange(pos, pos + ea.len())[0] == s[pos]);
    assert(s.subrange(pos, pos + eb.len())[0] == s[pos]);
    assert(s[pos] == ea[0]);
    assert(s[pos] == eb[0]);
    assert(ea[0] == a.genotype@.len() as i128);
    assert(eb[0] == b.genotype@.len() as i128);
    assert(a.genotype@.len() == b.genotype@.len());
    let n = a.genotype@.len() as int;
    assert(ea.len() == eb.len());
    assert forall|i: int| 0 <= i < ea.len() implies s[pos + i] == ea[i] && s[pos + i]
        == eb[i] by {
        assert(s.subrange(pos, pos + ea.len())[i] == s[pos + i]);
    }
    assert forall|j: int| 0 <= j < n implies a.genotype@[j] == b.genotype@[j] by {
        assert(s[pos + 1 + j] == ea[1 + j]);
        assert(s[pos + 1 + j] == eb[1 + j]);
        assert(ea[1 + j] == widen_genes(a.genotype@)[j]);
        assert(eb[1 + j] == widen_genes(b.genotype@)[j]);
    }
    assert(a.genotype@ =~= b.genotype@);
    assert(s[pos + 1 + n] == ea[1 + n] && s[pos + 1 + n] == eb[1 + n]);
    assert(s[pos + 2 + n] == ea[2 + n] && s[pos + 2 + n] == eb[2 + n]);
    assert(ea =~= eb);
}

/// Reads one individual's words starting at `pos`.  Accepts exactly the
/// well-formed encodings: whatever comes back re-encodes to the consumed
/// words, and the encoding of any individual with genes in range is
/// accepted.
fn decode_individual_at(words: &Vec<i128>, pos: usize) -> (r: Option<(Individual, usize)>)
    ensures
        r is Some ==> ({
            let (c, end) = r->0;
            &&& pos <= end <= words@.len()
            &&& genes_bounded(c.genotype@)
            &&& words@.subrange(pos as int, end as int) == spec_encode_individual(c)
        }),
        forall|c: Individual|
            genes_bounded(c.genotype@) && prefix_at(
                #[trigger] spec_encode_individual(c),
                words@,
                pos as int,
            ) ==> r is Some,
{
    let len = words.len();
    if pos >= len {
        proof {
            assert forall|c: Individual|
                genes_bounded(c.genotype@) && prefix_at(
                    #[trigger] spec_encode_individual(c),
                    words@,
                    pos as int,
                ) implies false by {
                assert(spec_encode_individual(c).len() >= 3);
            }
        }
        return None;
    }
    let w0 = words[pos];
    if w0 < 0 || w0 > (usize::MAX as i128) {
        proof {
            assert forall|c: Individual|
                genes_bounded(c.genotype@) && prefix_at(
                    #[trigger] spec_encode_individual(c),
                    words@,
                    pos as int,
                ) implies false by {
                let e = spec_encode_individual(c);
                assert(words@.subrange(pos as int, pos + e.len())[0] == words@[pos as int]);
                assert(words@[pos as int] == e[0]);
                assert(c.genotype.len() == c.genotype@.len());
                assert(e[0] == c.genotype@.len() as i128);
            }
        }
        return None;
    }
    let n = w0 as usize;
    let remaining = len - pos - 1;
    if n > remaining || remaining - n < 2 {
        proof {
            assert forall|c: Individual|
                genes_bounded(c.genotype@) && prefix_at(
                    #[trigger] spec_encode_individual(c),
                    words@,
                    pos as int,
                ) implies false by {
                let e = spec_encode_individual(c);
                assert(words@.subrange(pos as int, pos + e.len())[0] == words@[pos as int]);
                assert(words@[pos as int] == e[0]);
                assert(c.genotype.len() == c.genotype@.len());
                assert(c.genotype@.len() == n);
                assert(e.len() == n + 3);
            }
        }
        return None;
    }
    let mut genotype: Vec<i64> = Vec::new();
    let mut k: usize = 0;
    #[verifier::loop_isolation(false)]
    while k < n
        invariant
            0 <= k <= n,
            genotype@.len() == k,
            forall|j: int|
                0 <= j < k ==> (#[trigger] genotype@[j]) as i128 == words@[pos + 1 + j]
                    && -GENE_LIMIT <= genotype@[j] <= GENE_LIMIT,
        decreases n - k,
    {
        let w = words[pos + 1 + k];
        if w < -(GENE_LIMIT as i128) || w > (GENE_LIMIT as i128) {
            proof {
                assert forall|c: Individual|
                    genes_bounded(c.genotype@) && prefix_at(
                        #[trigger] spec_encode_individual(c),
                        words@,
                        pos as int,
                    ) implies false by {
                    let e = spec_encode_individual(c);
                    assert(words@.subrange(pos as int, pos + e.len())[0] == words@[pos as int]);
                    assert(words@[pos as int] == e[0]);
                    assert(c.genotype.len() == c.genotype@.len());
                    assert(c.genotype@.len() == n);
                    assert(words@.subrange(pos as int, pos + e.len())[1 + k] == words@[pos + 1
                        + k]);
                    assert(words@[pos + 1 + k] == e[1 + k]);
                    assert(e[1 + k as int] == widen_genes(c.genotype@)[k as int]);
                    assert(-GENE_LIMIT <= c.genotype@[k as int] <= GENE_LIMIT);
                }
            }
            return None;
        }
        genotype.push(w as i64);
        k = k + 1;
    }
    let fitness = words[pos + 1 + n];
    let wa = words[pos + 2 + n];
    if wa < 0 || wa > (usize::MAX as i128) {
        proof {
            assert forall|c: Individual|
                genes_bounded(c.genotype@) && prefix_at(
                    #[trigger] spec_encode_individual(c),
                    words@,
                    pos as int,
                ) implies false by {
                let e = spec_encode_individual(c);
                assert(words@.subrange(pos as int, pos + e.len())[0] == words@[pos as int]);
                assert(words@[pos as int] == e[0]);
                assert(c.genotype.len() == c.genotype@.len());
                assert(c.genotype@.len() == n);
                assert(words@.subrange(pos as int, pos + e.len())[2 + n] == words@[pos + 2
                    + n]);
                assert(words@[pos + 2 + n] == e[2 + n]);
                assert(e[2 + n as int] == c.age as i128);
            }
        }
        return None;
    }
    let c = Individual { genotype, fitness, age: wa as usize };
    let end = pos + 3 + n;
    proof {
        let e = spec_encode_individual(c);
        assert(e.len() == n + 3);
        assert forall|j: int| 0 <= j < e.len() implies words@.subrange(
            pos as int,
            end as int,
        )[j] == e[j] by {
            assert(words@.subrange(pos as int, end as int)[j] == words@[pos + j]);
            if j == 0 {
                assert(e[0] == c.genotype@.len() as i128);
            } else if j < 1 + n {
                assert(e[j] == widen_genes(c.genotype@)[j - 1]);
            } else if j == 1 + n {
                assert(e[j] == c.fitness);
            } else {
                assert(e[j] == c.age as i128);
            }
        }
        assert(words@.subrange(pos as int, end as int) =~= e);
    }
    Some((c, end))
}

/// Deserializes one individual from exactly these words; a stream that is
/// not the encoding of an individual with genes in range is rejected as
/// malformed.  Together with [`encode_individual`] this is the round trip:
/// decoding an encoded individual succeeds and reproduces its genotype,
/// cost and age exactly.
pub fn decode_individual(words: &Vec<i128>) -> (r: Result<Individual, Error>)
    ensures
        r is Ok ==> words@ == spec_encode_individual(r->Ok_0) && genes_bounded(
            r->Ok_0.genotype@,
        ),
        forall|c: Individual|
            genes_bounded(c.genotype@) && words@ == #[trigger] spec_encode_individual(c)
                ==> r is Ok && same_individual(r->Ok_0, c),
        r is Err ==> r == Err::<Individual, Error>(Error::MalformedInput),
{
    proof {
        assert forall|c: Individual| words@ == #[trigger] spec_encode_individual(c)
            implies prefix_at(spec_encode_individual(c), words@, 0) by {
            assert(words@.subrange(0, words@.len() as int) =~= words@);
        }
    }
    match decode_individual_at(words, 0) {
        None => Err(Error::MalformedInput),
        Some((c, end)) => {
            if end != words.len() {
                proof {
                    assert forall|b: Individual|
                        genes_bounded(b.genotype@) && words@ == #[trigger] spec_encode_individual(
                            b,
                        ) implies false by {
                        assert(prefix_at(spec_encode_individual(c), words@, 0));
                        lemma_individual_unique(c, b, words@, 0);
                    }
                }
                return Err(Error::MalformedInput);
            }
            proof {
                assert(words@.subrange(0, end as int) =~= words@);
                assert forall|b: Individual|
                    genes_bounded(b.genotype@) && words@ == #[trigger] spec_encode_individual(b)
                        implies same_individual(c, b) by {
                    assert(prefix_at(spec_encode_individual(c), words@, 0));
                    lemma_individual_unique(c, b, words@, 0);
                }
            }
            Ok(c)
        },
    }
}

/// A row's words determine it: two bounded rows whose encodings begin at
/// the same place in the same stream are the same row.
pub proof fn lemma_row_unique(a: Seq<i64>, b: Seq<i64>, s: Seq<i128>, pos: int)
    requires
        a.len() <= COL_LIMIT,
        b.len() <= COL_LIMIT,
        prefix_at(spec_encode_row(a), s, pos),
        prefix_at(spec_encode_row(b), s, pos),
    ensures
        a == b,
        spec_encode_row(a) == spec_encode_row(b),
{
    let ea = spec_encode_row(a);
    let eb = spec_encode_row(b);
    assert(s.subrange(pos, pos + ea.len())[0] == s[pos]);
    assert(s.subrange(pos, pos + eb.len())[0] == s[pos]);
    assert(ea[0] == a.len() as i128);
    assert(eb[0] == b.len() as i128);
    assert(a.len() == b.len());
    assert forall|i: int| 0 <= i < ea.len() implies s[pos + i] == ea[i] && s[pos + i]
        == eb[i] by {
        assert(s.subrange(pos, pos + ea.len())[i] == s[pos + i]);
    }
    assert forall|j: int| 0 <= j < a.len() implies a[j] == b[j] by {
        assert(ea[1 + j] == widen_genes(a)[j]);
        assert(eb[1 + j] == widen_genes(b)[j]);
    }
    assert(a =~= b);
    assert(ea =~= eb);
}

/// Reads one row's words starting at `pos`; accepts exactly the encodings
/// of bounded rows.
fn decode_row_at(words: &Vec<i128>, pos: usize) -> (r: Option<(Vec<i64>, usize)>)
    ensures
        r is Some ==> ({
            let (row, end) = r->0;
            &&& pos <= end <= words@.len()
            &&& values_bounded(row@)
            &&& row@.len() <= COL_LIMIT
            &&& words@.subrange(pos as int, end as int) == spec_encode_row(row@)
        }),
        forall|row: Seq<i64>|
            values_bounded(row) && row.len() <= COL_LIMIT && prefix_at(
                #[trigger] spec_encode_row(row),
                words@,
                pos as int,
            ) ==> r is Some,
{
    let len = words.len();
    if pos >= len {
        proof {
            assert forall|row: Seq<i64>|
                values_bounded(row) && row.len() <= COL_LIMIT && prefix_at(
                    #[trigger] spec_encode_row(row),
                    words@,
                    pos as int,
                ) implies false by {
                assert(spec_encode_row(row).len() >= 1);
            }
        }
        return None;
    }
    let w0 = words[pos];
    if w0 < 0 || w0 > (COL_LIMIT as i128) {
        proof {
            assert forall|row: Seq<i64>|
                values_bounded(row) && row.len() <= COL_LIMIT && prefix_at(
                    #[trigger] spec_encode_row(row),
                    words@,
                    pos as int,
                ) implies false by {
                let e = spec_encode_row(row);
                assert(words@.subrange(pos as int, pos + e.len())[0] == words@[pos as int]);
                assert(words@[pos as int] == e[0]);
                assert(e[0] == row.len() as i128);
            }
        }
        return None;
    }
    let n = w0 as usize;
    if n > len - pos - 1 {
        proof {
            assert forall|row: Seq<i64>|
                values_bounded(row) && row.len() <= COL_LIMIT && prefix_at(
                    #[trigger] spec_encode_row(row),
                    words@,
                    pos as int,
                ) implies false by {
                let e = spec_encode_row(row);
                assert(words@.subrange(pos as int, pos + e.len())[0] == words@[pos as int]);
                assert(words@[pos as int] == e[0]);
                assert(e[0] == row.len() as i128);
                assert(row.len() == n);
                assert(e.len() == n + 1);
            }
        }
        return None;
    }
    let mut row: Vec<i64> = Vec::new();
    let mut k: usize = 0;
    #[verifier::loop_isolation(false)]
    while k < n
        invariant
            0 <= k <= n,
            row@.len() == k,
            forall|j: int|
                0 <= j < k ==> (#[trigger] row@[j]) as i128 == words@[pos + 1 + j]
                    && -crate::fixed::VAL_LIMIT <= row@[j] <= crate::fixed::VAL_LIMIT,
        decreases n - k,
    {
        let w = words[pos + 1 + k];
        if w < -(crate::fixed::VAL_LIMIT as i128) || w > (crate::fixed::VAL_LIMIT as i128) {
            proof {
                assert forall|rr: Seq<i64>|
                    values_bounded(rr) && rr.len() <= COL_LIMIT && prefix_at(
                        #[trigger] spec_encode_row(rr),
                        words@,
                        pos as int,
                    ) implies false by {
                    let e = spec_encode_row(rr);
                    assert(words@.subrange(pos as int, pos + e.len())[0] == words@[pos as int]);
                    assert(words@[pos as int] == e[0]);
                    assert(rr.len() == n);
                    assert(words@.subrange(pos as int, pos + e.len())[1 + k] == words@[pos + 1
                        + k]);
                    assert(words@[pos + 1 + k] == e[1 + k]);
                    assert(e[1 + k as int] == widen_genes(rr)[k as int]);
                    assert(-crate::fixed::VAL_LIMIT <= rr[k as int] <= crate::fixed::VAL_LIMIT);
                }
            }
            return None;
        }
        row.push(w as i64);
        k = k + 1;
    }
    let end = pos + 1 + n;
    proof {
        let e = spec_encode_row(row@);
        assert(e.len() == n + 1);
        assert forall|j: int| 0 <= j < e.len() implies words@.subrange(
            pos as int,
            end as int,
        )[j] == e[j] by {
            assert(words@.subrange(pos as int, end as int)[j] == words@[pos + j]);
            if j == 0 {
                assert(e[0] == row@.len() as i128);
            } else {
                assert(e[j] == widen_genes(row@)[j - 1]);
            }
        }
        assert(words@.subrange(pos as int, end as int) =~= e);
    }
    Some((row, end))
}

/// Lists of rows align: if the encodings of two row lists begin at the same
/// place and one list is no longer than the other, the shorter is a prefix
/// of the longer, and what remains of the longer is encoded right after it.
pub proof fn lemma_rows_align(a: Seq<Seq<i64>>, b: Seq<Seq<i64>>, s: Seq<i128>, q: int)
    requires
        forall|i: int| 0 <= i < a.len() ==> (#[trigger] a[i]).len() <= COL_LIMIT,
        forall|i: int| 0 <= i < b.len() ==> (#[trigger] b[i]).len() <= COL_LIMIT,
        prefix_at(spec_encode_rows(a), s, q),
        prefix_at(spec_encode_rows(b), s, q),
        a.len() <= b.len(),
    ensures
        b.subrange(0, a.len() as int) == a,
        spec_encode_rows(b.subrange(0, a.len() as int)) == spec_encode_rows(a),
        prefix_at(
            spec_encode_rows(b.subrange(a.len() as int, b.len() as int)),
            s,
            q + spec_encode_rows(a).len(),
        ),
    decreases a.len(),
{
    if a.len() == 0 {
        assert(b.subrange(0, 0) =~= a);
        assert(spec_encode_rows(b.subrange(0, 0)) =~= spec_encode_rows(a));
        assert(b.subrange(0, b.len() as int) =~= b);
    } else {
        let ea0 = spec_encode_row(a[0]);
        let eb0 = spec_encode_row(b[0]);
        lemma_prefix_split(ea0, spec_encode_rows(a.drop_first()), s, q);
        lemma_prefix_split(eb0, spec_encode_rows(b.drop_first()), s, q);
        lemma_row_unique(a[0], b[0], s, q);
        lemma_rows_align(a.drop_first(), b.drop_first(), s, q + ea0.len());
        assert(b.subrange(0, a.len() as int) =~= a) by {
            assert forall|i: int| 0 <= i < a.len() implies b[i] == a[i] by {
                if i > 0 {
                    assert(b.drop_first().subrange(0, a.drop_first().len() as int)[i - 1]
                        == b[i]);
                    assert(a.drop_first()[i - 1] == a[i]);
                }
            }
        }
        assert(spec_encode_rows(b.subrange(0, a.len() as int)) == spec_encode_rows(a));
        assert(b.drop_first().subrange(
            a.drop_first().len() as int,
            b.drop_first().len() as int,
        ) =~= b.subrange(a.len() as int, b.len() as int));
    }
}

/// `a` and `b` hold the same rows and derive the same genotype size.
pub open spec fn same_training(a: TrainingData, b: TrainingData) -> bool {
    &&& a.rows() == b.rows()
    &&& a.genotype_size == b.genotype_size
}

/// Reads one dataset's words starting at `pos`.  Accepts exactly the
/// encodings of well-formed datasets: whatever comes back is well-formed
/// and re-encodes to the consumed words, and the encoding of any
/// well-formed dataset is accepted.
fn decode_training_at(words: &Vec<i128>, pos: usize) -> (r: Option<(TrainingData, usize)>)
    ensures
        r is Some ==> ({
            let (t, end) = r->0;
            &&& pos <= end <= words@.len()
            &&& t.wf()
            &&& words@.subrange(pos as int, end as int) == spec_encode_training(t)
        }),
        forall|t: TrainingData|
            t.wf() && prefix_at(#[trigger] spec_encode_training(t), words@, pos as int) ==> r
                is Some,
{
    let len = words.len();
    if pos >= len || len - pos < 2 {
        proof {
            assert forall|t: TrainingData|
                t.wf() && prefix_at(#[trigger] spec_encode_training(t), words@, pos as int)
                implies false by {
                assert(spec_encode_training(t).len() >= 2);
            }
        }
        return None;
    }
    proof {
        assert forall|t: TrainingData|
            t.wf() && prefix_at(#[trigger] spec_encode_training(t), words@, pos as int)
            implies t.genotype_size as i128 == words@[pos as int] && t.rows().len() as i128
            == words@[pos + 1] by {
            let e = spec_encode_training(t);
            assert(words@.subrange(pos as int, pos + e.len())[0] == words@[pos as int]);
            assert(words@.subrange(pos as int, pos + e.len())[1] == words@[pos + 1]);
            assert(e[0] == t.genotype_size as i128);
            assert(e[1] == t.rows().len() as i128);
            assert(t.data.len() == t.rows().len());
        }
    }
    let w_gs = words[pos];
    let w_cnt = words[pos + 1];
    if w_gs < 0 || w_gs >= (COL_LIMIT as i128) || w_cnt < 0 || w_cnt > (ROW_LIMIT as i128) {
        return None;
    }
    let gs = w_gs as usize;
    let cnt = w_cnt as usize;
    if cnt == 0 && gs != 0 {
        return None;
    }
    let mut data: Vec<Vec<i64>> = Vec::new();
    let mut cur: usize = pos + 2;
    let ghost head = seq![w_gs, w_cnt];
    proof {
        assert(data.deep_view().subrange(0, 0) =~= Seq::<Seq<i64>>::empty());
        assert(words@.subrange(pos + 2, pos + 2) =~= spec_encode_rows(data.deep_view()));
    }
    let mut k: usize = 0;
    #[verifier::loop_isolation(false)]
    while k < cnt
        invariant
            0 <= k <= cnt,
            data@.len() == k,
            pos + 2 <= cur <= words@.len(),
            data.deep_view().len() == k,
            forall|i: int|
                0 <= i < k ==> (#[trigger] data.deep_view()[i]).len() == gs + 1
                    && values_bounded(data.deep_view()[i]),
            gs + 1 <= COL_LIMIT,
            words@.subrange(pos + 2, cur as int) == spec_encode_rows(data.deep_view()),
        decreases cnt - k,
    {
        let ghost parsed = data.deep_view();
        proof {
            assert(words@.subrange(pos + 2, cur as int) =~= words@.subrange(
                pos + 2,
                cur as int,
            ));
            assert(prefix_at(spec_encode_rows(parsed), words@, pos + 2));
            assert forall|t: TrainingData|
                t.wf() && prefix_at(#[trigger] spec_encode_training(t), words@, pos as int)
                implies prefix_at(spec_encode_row(t.rows()[k as int]), words@, cur as int)
                && t.rows()[k as int].len() == gs + 1 && values_bounded(
                t.rows()[k as int],
            ) by {
                let e = spec_encode_training(t);
                lemma_prefix_split(
                    seq![t.genotype_size as i128, t.rows().len() as i128],
                    spec_encode_rows(t.rows()),
                    words@,
                    pos as int,
                );
                assert(t.rows().len() == cnt);
                assert(t.genotype_size == gs);
                lemma_rows_align(parsed, t.rows(), words@, pos + 2);
                let rest = t.rows().subrange(k as int, t.rows().len() as int);
                assert(rest.len() > 0);
                assert(rest[0] == t.rows()[k as int]);
                assert(spec_encode_rows(rest) == spec_encode_row(rest[0]) + spec_encode_rows(
                    rest.drop_first(),
                ));
                lemma_prefix_split(
                    spec_encode_row(rest[0]),
                    spec_encode_rows(rest.drop_first()),
                    words@,
                    cur as int,
                );
            }
        }
        match decode_row_at(words, cur) {
            None => {
                return None;
            },
            Some((row, nxt)) => {
                if row.len() != gs + 1 {
                    proof {
                        assert forall|t: TrainingData|
                            t.wf() && prefix_at(
                                #[trigger] spec_encode_training(t),
                                words@,
                                pos as int,
                            ) implies false by {
                            lemma_row_unique(row@, t.rows()[k as int], words@, cur as int);
                        }
                    }
                    return None;
                }
                let ghost before = data.deep_view();
                data.push(row);
                proof {
                    assert(data.deep_view() =~~= before.push(row@));
                    lemma_encode_rows_push(before, row@);
                    assert(words@.subrange(pos + 2, nxt as int) =~= words@.subrange(
                        pos + 2,
                        cur as int,
                    ) + words@.subrange(cur as int, nxt as int));
                }
                cur = nxt;
            },
        }
        k = k + 1;
    }
    let t = TrainingData { data, genotype_size: gs };
    proof {
        assert(t.rows() == t.data.deep_view());
        assert(t.wf());
        let e = spec_encode_training(t);
        assert(t.rows().len() == cnt);
        assert(words@.subrange(pos as int, cur as int) =~= head + words@.subrange(
            pos + 2,
            cur as int,
        ));
        assert(head =~= seq![t.genotype_size as i128, t.rows().len() as i128]);
        assert(words@.subrange(pos as int, cur as int) =~= e);
    }
    Some((t, cur))
}

/// Deserializes one dataset from exactly these words; a stream that is not
/// the encoding of a well-formed dataset is rejected as malformed.
/// Together with [`encode_training`] this is the round trip: decoding an
/// encoded dataset succeeds and reproduces its rows and genotype size
/// exactly.
pub fn decode_training(words: &Vec<i128>) -> (r: Result<TrainingData, Error>)
    ensures
        r is Ok ==> words@ == spec_encode_training(r->Ok_0) && r->Ok_0.wf(),
        forall|t: TrainingData|
            t.wf() && words@ == #[trigger] spec_encode_training(t) ==> r is Ok && same_training(
                r->Ok_0,
                t,
            ),
        r is Err ==> r == Err::<TrainingData, Error>(Error::MalformedInput),
{
    proof {
        assert forall|t: TrainingData| words@ == #[trigger] spec_encode_training(t)
            implies prefix_at(spec_encode_training(t), words@, 0) by {
            assert(words@.subrange(0, words@.len() as int) =~= words@);
        }
    }
    match decode_training_at(words, 0) {
        None => Err(Error::MalformedInput),
        Some((t, end)) => {
            if end != words.len() {
                proof {
                    assert forall|b: TrainingData|
                        b.wf() && words@ == #[trigger] spec_encode_training(b)
                        implies false by {
                        assert(prefix_at(spec_encode_training(t), words@, 0));
                        lemma_training_unique(t, b, words@, 0);
                    }
                }
                return Err(Error::MalformedInput);
            }
            proof {
                assert(words@.subrange(0, end as int) =~= words@);
                assert forall|b: TrainingData|
                    b.wf() && words@ == #[trigger] spec_encode_training(b)
                    implies same_training(t, b) by {
                    assert(prefix_at(spec_encode_training(t), words@, 0));
                    lemma_training_unique(t, b, words@, 0);
                }
            }
            Ok(t)
        },
    }
}

/// A dataset's words determine it: two well-formed datasets whose
/// encodings begin at the same place in the same stream hold the same
/// rows and genotype size.
pub proof fn lemma_training_unique(a: TrainingData, b: TrainingData, s: Seq<i128>, pos: int)
    requires
        a.wf(),
        b.wf(),
        prefix_at(spec_encode_training(a), s, pos),
        prefix_at(spec_encode_training(b), s, pos),
    ensures
        same_training(a, b),
        spec_encode_training(a) == spec_encode_training(b),
{
    let ea = spec_encode_training(a);
    let eb = spec_encode_training(b);
    assert(s.subrange(pos, pos + ea.len())[0] == s[pos]);
    assert(s.subrange(pos, pos + eb.len())[0] == s[pos]);
    assert(s.subrange(pos, pos + ea.len())[1] == s[pos + 1]);
    assert(s.subrange(pos, pos + eb.len())[1] == s[pos + 1]);
    assert(a.data.len() == a.rows().len());
    assert(b.data.len() == b.rows().len());
    assert(ea[0] == a.genotype_size as i128 && eb[0] == b.genotype_size as i128);
    assert(ea[1] == a.rows().len() as i128 && eb[1] == b.rows().len() as i128);
    assert(a.genotype_size == b.genotype_size);
    assert(a.rows().len() == b.rows().len());
    lemma_prefix_split(
        seq![a.genotype_size as i128, a.rows().len() as i128],
        spec_encode_rows(a.rows()),
        s,
        pos,
    );
    lemma_prefix_split(
        seq![b.genotype_size as i128, b.rows().len() as i128],
        spec_encode_rows(b.rows()),
        s,
        pos,
    );
    lemma_rows_align(a.rows(), b.rows(), s, pos + 2);
    assert(b.rows().subrange(0, a.rows().len() as int) =~= b.rows());
    assert(a.rows() == b.rows());
    assert(ea =~= eb);
}

/// Lists of individuals align: if the encodings of two lists begin at the
/// same place and one is no longer than the other, they agree individual
/// by individual over the shorter, and what remains of the longer is
/// encoded right after it.
pub proof fn lemma_individuals_align(
    a: Seq<Individual>,
    b: Seq<Individual>,
    s: Seq<i128>,
    q: int,
)
    requires
        prefix_at(spec_encode_individuals(a), s, q),
        prefix_at(spec_encode_individuals(b), s, q),
        a.len() <= b.len(),
    ensures
        forall|i: int| 0 <= i < a.len() ==> same_individual(a[i], #[trigger] b[i]),
        spec_encode_individuals(b.subrange(0, a.len() as int)) == spec_encode_individuals(a),
        prefix_at(
            spec_encode_individuals(b.subrange(a.len() as int, b.len() as int)),
            s,
            q + spec_encode_individuals(a).len(),
        ),
    decreases a.len(),
{
    if a.len() == 0 {
        assert(b.subrange(0, 0) =~= Seq::<Individual>::empty());
        assert(spec_encode_individuals(b.subrange(0, 0)) =~= spec_encode_individuals(a));
        assert(b.subrange(0, b.len() as int) =~= b);
    } else {
        let ea0 = spec_encode_individual(a[0]);
        let eb0 = spec_encode_individual(b[0]);
        lemma_prefix_split(ea0, spec_encode_individuals(a.drop_first()), s, q);
        lemma_prefix_split(eb0, spec_encode_individuals(b.drop_first()), s, q);
        lemma_individual_unique(a[0], b[0], s, q);
        lemma_individuals_align(a.drop_first(), b.drop_first(), s, q + ea0.len());
        assert forall|i: int| 0 <= i < a.len() implies same_individual(a[i], #[trigger] b[i]) by {
            if i > 0 {
                assert(same_individual(a.drop_first()[i - 1], b.drop_first()[i - 1]));
            }
        }
        assert(b.drop_first().subrange(0, a.drop_first().len() as int) =~= b.subrange(
            0,
            a.len() as int,
        ).drop_first());
        assert(b.subrange(0, a.len() as int)[0] == b[0]);
        assert(spec_encode_individuals(b.subrange(0, a.len() as int))
            == spec_encode_individual(b.subrange(0, a.len() as int)[0])
            + spec_encode_individuals(b.subrange(0, a.len() as int).drop_first()));
        assert(spec_encode_individuals(b.subrange(0, a.len() as int))
            == spec_encode_individuals(a));
        assert(b.drop_first().subrange(
            a.drop_first().len() as int,
            b.drop_first().len() as int,
        ) =~= b.subrange(a.len() as int, b.len() as int));
    }
}

/// A label's words determine it.
pub proof fn lemma_label_unique(a: Seq<u8>, b: Seq<u8>, s: Seq<i128>, pos: int)
    requires
        a.len() <= usize::MAX,
        b.len() <= usize::MAX,
        prefix_at(spec_encode_label(a), s, pos),
        prefix_at(spec_encode_label(b), s, pos),
    ensures
        a == b,
        spec_encode_label(a) == spec_encode_label(b),
{
    let ea = spec_encode_label(a);
    let eb = spec_encode_label(b);
    assert(s.subrange(pos, pos + ea.len())[0] == s[pos]);
    assert(s.subrange(pos, pos + eb.len())[0] == s[pos]);
    assert(ea[0] == a.len() as i128);
    assert(eb[0] == b.len() as i128);
    assert(a.len() == b.len());
    assert forall|i: int| 0 <= i < ea.len() implies s[pos + i] == ea[i] && s[pos + i]
        == eb[i] by {
        assert(s.subrange(pos, pos + ea.len())[i] == s[pos + i]);
    }
    assert forall|j: int| 0 <= j < a.len() implies a[j] == b[j] by {
        assert(ea[1 + j] == widen_bytes(a)[j]);
        assert(eb[1 + j] == widen_bytes(b)[j]);
    }
    assert(a =~= b);
    assert(ea =~= eb);
}

/// Lists of labels align, as lists of rows do.
pub proof fn lemma_labels_align(a: Seq<Seq<u8>>, b: Seq<Seq<u8>>, s: Seq<i128>, q: int)
    requires
        forall|i: int| 0 <= i < a.len() ==> (#[trigger] a[i]).len() <= usize::MAX,
        forall|i: int| 0 <= i < b.len() ==> (#[trigger] b[i]).len() <= usize::MAX,
        prefix_at(spec_encode_labels(a), s, q),
        prefix_at(spec_encode_labels(b), s, q),
        a.len() <= b.len(),
    ensures
        b.subrange(0, a.len() as int) == a,
        spec_encode_labels(b.subrange(0, a.len() as int)) == spec_encode_labels(a),
        prefix_at(
            spec_encode_labels(b.subrange(a.len() as int, b.len() as int)),
            s,
            q + spec_encode_labels(a).len(),
        ),
    decreases a.len(),
{
    if a.len() == 0 {
        assert(b.subrange(0, 0) =~= a);
        assert(spec_encode_labels(b.subrange(0, 0)) =~= spec_encode_labels(a));
        assert(b.subrange(0, b.len() as int) =~= b);
    } else {
        let ea0 = spec_encode_label(a[0]);
        let eb0 = spec_encode_label(b[0]);
        lemma_prefix_split(ea0, spec_encode_labels(a.drop_first()), s, q);
        lemma_prefix_split(eb0, spec_encode_labels(b.drop_first()), s, q);
        lemma_label_unique(a[0], b[0], s, q);
        lemma_labels_align(a.drop_first(), b.drop_first(), s, q + ea0.len());
        assert(b.subrange(0, a.len() as int) =~= a) by {
            assert forall|i: int| 0 <= i < a.len() implies b[i] == a[i] by {
                if i > 0 {
                    assert(b.drop_first().subrange(0, a.drop_first().len() as int)[i - 1]
                        == b[i]);
                    assert(a.drop_first()[i - 1] == a[i]);
                }
            }
        }
        assert(spec_encode_labels(b.subrange(0, a.len() as int)) == spec_encode_labels(a));
        assert(b.drop_first().subrange(
            a.drop_first().len() as int,
            b.drop_first().len() as int,
        ) =~= b.subrange(a.len() as int, b.len() as int));
    }
}

/// Reads one header label's words starting at `pos`; accepts exactly the
/// encodings of byte strings.
fn decode_label_at(words: &Vec<i128>, pos: usize) -> (r: Option<(Vec<u8>, usize)>)
    ensures
        r is Some ==> ({
            let (l, end) = r->0;
            &&& pos <= end <= words@.len()
            &&& words@.subrange(pos as int, end as int) == spec_encode_label(l@)
        }),
        forall|l: Seq<u8>|
            l.len() <= usize::MAX && prefix_at(
                #[trigger] spec_encode_label(l),
                words@,
                pos as int,
            ) ==> r is Some,
{
    let len = words.len();
    if pos >= len {
        proof {
            assert forall|l: Seq<u8>|
                l.len() <= usize::MAX && prefix_at(
                    #[trigger] spec_encode_label(l),
                    words@,
                    pos as int,
                ) implies false by {
                assert(spec_encode_label(l).len() >= 1);
            }
        }
        return None;
    }
    let w0 = words[pos];
    if w0 < 0 || w0 > (usize::MAX as i128) {
        proof {
            assert forall|l: Seq<u8>|
                l.len() <= usize::MAX && prefix_at(
                    #[trigger] spec_encode_label(l),
                    words@,
                    pos as int,
                ) implies false by {
                let e = spec_encode_label(l);
                assert(words@.subrange(pos as int, pos + e.len())[0] == words@[pos as int]);
                assert(words@[pos as int] == e[0]);
                assert(e[0] == l.len() as i128);
            }
        }
        return None;
    }
    let n = w0 as usize;
    if n > len - pos - 1 {
        proof {
            assert forall|l: Seq<u8>|
                l.len() <= usize::MAX && prefix_at(
                    #[trigger] spec_encode_label(l),
                    words@,
                    pos as int,
                ) implies false by {
                let e = spec_encode_label(l);
                assert(words@.subrange(pos as int, pos + e.len())[0] == words@[pos as int]);
                assert(words@[pos as int] == e[0]);
                assert(e[0] == l.len() as i128);
                assert(l.len() == n);
                assert(e.len() == n + 1);
            }
        }
        return None;
    }
    let mut label: Vec<u8> = Vec::new();
    let mut k: usize = 0;
    #[verifier::loop_isolation(false)]
    while k < n
        invariant
            0 <= k <= n,
            label@.len() == k,
            forall|j: int| 0 <= j < k ==> (#[trigger] label@[j]) as i128 == words@[pos + 1 + j],
        decreases n - k,
    {
        let w = words[pos + 1 + k];
        if w < 0 || w > 255 {
            proof {
                assert forall|l: Seq<u8>|
                    l.len() <= usize::MAX && prefix_at(
                        #[trigger] spec_encode_label(l),
                        words@,
                        pos as int,
                    ) implies false by {
                    let e = spec_encode_label(l);
                    assert(words@.subrange(pos as int, pos + e.len())[0] == words@[pos as int]);
                    assert(words@[pos as int] == e[0]);
                    assert(l.len() == n);
                    assert(words@.subrange(pos as int, pos + e.len())[1 + k] == words@[pos + 1
                        + k]);
                    assert(words@[pos + 1 + k] == e[1 + k]);
                    assert(e[1 + k as int] == widen_bytes(l)[k as int]);
                    assert(0 <= l[k as int] <= 255);
                }
            }
            return None;
        }
        label.push(w as u8);
        k = k + 1;
    }
    let end = pos + 1 + n;
    proof {
        let e = spec_encode_label(label@);
        assert(e.len() == n + 1);
        assert forall|j: int| 0 <= j < e.len() implies words@.subrange(
            pos as int,
            end as int,
        )[j] == e[j] by {
            assert(words@.subrange(pos as int, end as int)[j] == words@[pos + j]);
            if j == 0 {
                assert(e[0] == label@.len() as i128);
            } else {
                assert(e[j] == widen_bytes(label@)[j - 1]);
            }
        }
        assert(words@.subrange(pos as int, end as int) =~= e);
    }
    Some((label, end))
}

/// A population that the codec can carry: well-formed, with the cached
/// best slot's genes in range like everyone else's.
pub open spec fn encodable(p: Population) -> bool {
    &&& p.wf()
    &&& genes_bounded(p.best.genotype@)
}

/// `a` and `b` agree in every observable part: individuals pairwise, best
/// slot, dataset, header and all five configuration values.
pub open spec fn same_population(a: Population, b: Population) -> bool {
    &&& a.individuals@.len() == b.individuals@.len()
    &&& forall|i: int|
        0 <= i < a.individuals@.len() ==> same_individual(
            a.individuals@[i],
            #[trigger] b.individuals@[i],
        )
    &&& same_individual(a.best, b.best)
    &&& same_training(a.training_data, b.training_data)
    &&& a.header.deep_view() == b.header.deep_view()
    &&& a.max_children_size == b.max_children_size
    &&& a.genotype_size == b.genotype_size
    &&& a.crossover_chance == b.crossover_chance
    &&& a.mutation_chance == b.mutation_chance
    &&& a.max_age == b.max_age
}

/// Where each part of a population's encoding sits in the stream.
pub proof fn lemma_population_prefix(p: Population, s: Seq<i128>, pos: int)
    requires
        prefix_at(spec_encode_population(p), s, pos),
    ensures
        ({
            let et = spec_encode_training(p.training_data);
            let eb = spec_encode_individual(p.best);
            let ei = spec_encode_individuals(p.individuals@);
            let el = spec_encode_labels(p.header.deep_view());
            &&& prefix_at(
                seq![
                    p.max_children_size as i128,
                    p.genotype_size as i128,
                    p.crossover_chance as i128,
                    p.mutation_chance as i128,
                    p.max_age as i128,
                ],
                s,
                pos,
            )
            &&& prefix_at(et, s, pos + 5)
            &&& prefix_at(eb, s, pos + 5 + et.len())
            &&& prefix_at(
                seq![p.individuals@.len() as i128],
                s,
                pos + 5 + et.len() + eb.len(),
            )
            &&& prefix_at(ei, s, pos + 6 + et.len() + eb.len())
            &&& prefix_at(
                seq![p.header@.len() as i128],
                s,
                pos + 6 + et.len() + eb.len() + ei.len(),
            )
            &&& prefix_at(el, s, pos + 7 + et.len() + eb.len() + ei.len())
            &&& spec_encode_population(p).len() == 7 + et.len() + eb.len() + ei.len()
                + el.len()
        }),
{
    let h5 = seq![
        p.max_children_size as i128,
        p.genotype_size as i128,
        p.crossover_chance as i128,
        p.mutation_chance as i128,
        p.max_age as i128,
    ];
    let et = spec_encode_training(p.training_data);
    let eb = spec_encode_individual(p.best);
    let cn = seq![p.individuals@.len() as i128];
    let ei = spec_encode_individuals(p.individuals@);
    let ch = seq![p.header@.len() as i128];
    let el = spec_encode_labels(p.header.deep_view());
    let e = spec_encode_population(p);
    assert(e =~= h5 + (et + (eb + (cn + (ei + (ch + el))))));
    assert(prefix_at(h5 + (et + (eb + (cn + (ei + (ch + el))))), s, pos));
    lemma_prefix_split(h5, et + (eb + (cn + (ei + (ch + el)))), s, pos);
    lemma_prefix_split(et, eb + (cn + (ei + (ch + el))), s, pos + 5);
    lemma_prefix_split(eb, cn + (ei + (ch + el)), s, pos + 5 + et.len());
    lemma_prefix_split(cn, ei + (ch + el), s, pos + 5 + et.len() + eb.len());
    lemma_prefix_split(ei, ch + el, s, pos + 6 + et.len() + eb.len());
    lemma_prefix_split(ch, el, s, pos + 6 + et.len() + eb.len() + ei.len());
}

/// A population's words determine it: two encodable populations whose
/// encodings begin at the same place in the same stream agree in every
/// observable part.
pub proof fn lemma_population_unique(a: Population, b: Population, s: Seq<i128>, pos: int)
    requires
        a.wf(),
        b.wf(),
        prefix_at(spec_encode_population(a), s, pos),
        prefix_at(spec_encode_population(b), s, pos),
    ensures
        same_population(a, b),
        spec_encode_population(a) == spec_encode_population(b),
{
    lemma_population_prefix(a, s, pos);
    lemma_population_prefix(b, s, pos);
    let eta = spec_encode_training(a.training_data);
    let etb = spec_encode_training(b.training_data);
    assert(s.subrange(pos, pos + 5)[0] == s[pos]);
    assert(s.subrange(pos, pos + 5)[1] == s[pos + 1]);
    assert(s.subrange(pos, pos + 5)[2] == s[pos + 2]);
    assert(s.subrange(pos, pos + 5)[3] == s[pos + 3]);
    assert(s.subrange(pos, pos + 5)[4] == s[pos + 4]);
    assert(a.max_children_size as i128 == s[pos] && b.max_children_size as i128 == s[pos]);
    assert(a.max_children_size == b.max_children_size);
    assert(a.genotype_size == b.genotype_size);
    assert(a.crossover_chance == b.crossover_chance);
    assert(a.mutation_chance == b.mutation_chance);
    assert(a.max_age == b.max_age);
    lemma_training_unique(a.training_data, b.training_data, s, pos + 5);
    let eba = spec_encode_individual(a.best);
    lemma_individual_unique(a.best, b.best, s, pos + 5 + eta.len());
    let q0 = pos + 5 + eta.len() + eba.len();
    assert(s.subrange(q0, q0 + 1)[0] == s[q0]);
    assert(a.individuals@.len() as i128 == s[q0]);
    assert(b.individuals@.len() as i128 == s[q0]);
    assert(a.individuals.len() == a.individuals@.len());
    assert(b.individuals.len() == b.individuals@.len());
    assert(a.individuals@.len() == b.individuals@.len());
    let q1 = q0 + 1;
    lemma_individuals_align(a.individuals@, b.individuals@, s, q1);
    assert(b.individuals@.subrange(0, b.individuals@.len() as int) =~= b.individuals@);
    let eia = spec_encode_individuals(a.individuals@);
    let q2 = q1 + eia.len();
    assert(s.subrange(q2, q2 + 1)[0] == s[q2]);
    assert(a.header.len() == a.header@.len());
    assert(b.header.len() == b.header@.len());
    assert(a.header@.len() == b.header@.len());
    let q3 = q2 + 1;
    assert forall|i: int| 0 <= i < a.header.deep_view().len() implies (
    #[trigger] a.header.deep_view()[i]).len() <= usize::MAX by {
        assert(a.header.deep_view()[i] =~= a.header@[i]@);
        assert(a.header@[i].len() == a.header@[i]@.len());
    }
    assert forall|i: int| 0 <= i < b.header.deep_view().len() implies (
    #[trigger] b.header.deep_view()[i]).len() <= usize::MAX by {
        assert(b.header.deep_view()[i] =~= b.header@[i]@);
        assert(b.header@[i].len() == b.header@[i]@.len());
    }
    lemma_labels_align(a.header.deep_view(), b.header.deep_view(), s, q3);
    assert(b.header.deep_view().subrange(0, b.header.deep_view().len() as int)
        =~= b.header.deep_view());
    assert(a.header.deep_view() == b.header.deep_view());
    assert(spec_encode_population(a) =~= spec_encode_population(b));
}

/// For a candidate population whose encoding fills the stream: the decoded
/// dataset and best slot match the candidate's, and the stream's layout
/// follows the candidate's parts.
proof fn lemma_pop_parts(
    p: Population,
    s: Seq<i128>,
    t: TrainingData,
    best: Individual,
    end_t: int,
    end_b: int,
)
    requires
        encodable(p),
        prefix_at(spec_encode_population(p), s, 0),
        t.wf(),
        prefix_at(spec_encode_training(t), s, 5),
        end_t == 5 + spec_encode_training(t).len(),
        prefix_at(spec_encode_individual(best), s, end_t),
        end_b == end_t + spec_encode_individual(best).len(),
    ensures
        same_training(t, p.training_data),
        spec_encode_training(t) == spec_encode_training(p.training_data),
        same_individual(best, p.best),
        spec_encode_individual(best) == spec_encode_individual(p.best),
        end_b < s.len(),
        p.individuals@.len() as i128 == s[end_b],
        p.individuals@.len() <= usize::MAX,
        prefix_at(spec_encode_individuals(p.individuals@), s, end_b + 1),
{
    lemma_population_prefix(p, s, 0);
    lemma_training_unique(t, p.training_data, s, 5);
    lemma_individual_unique(best, p.best, s, end_t);
    let q0: int = 5 + spec_encode_training(p.training_data).len() as int + spec_encode_individual(
        p.best,
    ).len() as int;
    assert(q0 == end_b);
    assert(s.subrange(q0, q0 + 1)[0] == s[q0]);
    assert(p.individuals.len() == p.individuals@.len());
}

/// For a candidate population matching the parsed prefix: its next
/// individual is encoded exactly at the parse cursor, scored and in range.
proof fn lemma_pop_next_individual(
    p: Population,
    s: Seq<i128>,
    t: TrainingData,
    best: Individual,
    parsed: Seq<Individual>,
    end_t: int,
    end_b: int,
    cur: int,
    n: int,
)
    requires
        encodable(p),
        prefix_at(spec_encode_population(p), s, 0),
        t.wf(),
        prefix_at(spec_encode_training(t), s, 5),
        end_t == 5 + spec_encode_training(t).len(),
        prefix_at(spec_encode_individual(best), s, end_t),
        end_b == end_t + spec_encode_individual(best).len(),
        n as i128 == s[end_b],
        0 <= n <= usize::MAX,
        end_b < s.len(),
        prefix_at(spec_encode_individuals(parsed), s, end_b + 1),
        cur == end_b + 1 + spec_encode_individuals(parsed).len(),
        0 <= parsed.len() < n,
    ensures
        p.individuals@.len() == n,
        same_training(t, p.training_data),
        prefix_at(spec_encode_individual(p.individuals@[parsed.len() as int]), s, cur),
        genes_bounded(p.individuals@[parsed.len() as int].genotype@),
        crate::population::member_ok(
            p.individuals@[parsed.len() as int],
            p.training_data,
        ),
        forall|i: int| 0 <= i < parsed.len() ==> same_individual(parsed[i], #[trigger] p.individuals@[i]),
{
    lemma_pop_parts(p, s, t, best, end_t, end_b);
    assert(p.individuals@.len() == n);
    let k = parsed.len() as int;
    lemma_individuals_align(parsed, p.individuals@, s, end_b + 1);
    let rest = p.individuals@.subrange(k, p.individuals@.len() as int);
    assert(rest.len() > 0);
    assert(rest[0] == p.individuals@[k]);
    assert(spec_encode_individuals(rest) == spec_encode_individual(rest[0])
        + spec_encode_individuals(rest.drop_first()));
    lemma_prefix_split(
        spec_encode_individual(rest[0]),
        spec_encode_individuals(rest.drop_first()),
        s,
        cur,
    );
}

/// For a candidate population matching all parsed individuals: the header
/// count stands at the cursor and each label is encoded in turn.
proof fn lemma_pop_labels(
    p: Population,
    s: Seq<i128>,
    t: TrainingData,
    best: Individual,
    parsed: Seq<Individual>,
    labels: Seq<Seq<u8>>,
    end_t: int,
    end_b: int,
    cur: int,
    cur2: int,
    n: int,
    h: int,
)
    requires
        encodable(p),
        prefix_at(spec_encode_population(p), s, 0),
        t.wf(),
        prefix_at(spec_encode_training(t), s, 5),
        end_t == 5 + spec_encode_training(t).len(),
        prefix_at(spec_encode_individual(best), s, end_t),
        end_b == end_t + spec_encode_individual(best).len(),
        n as i128 == s[end_b],
        0 <= n <= usize::MAX,
        end_b < s.len(),
        prefix_at(spec_encode_individuals(parsed), s, end_b + 1),
        cur == end_b + 1 + spec_encode_individuals(parsed).len(),
        parsed.len() == n,
        forall|i: int| 0 <= i < labels.len() ==> (#[trigger] labels[i]).len() <= usize::MAX,
        0 <= h <= usize::MAX,
    ensures
        p.individuals@.len() == n,
        spec_encode_individuals(parsed) == spec_encode_individuals(p.individuals@),
        cur < s.len(),
        p.header@.len() as i128 == s[cur],
        p.header@.len() <= usize::MAX,
        prefix_at(spec_encode_labels(p.header.deep_view()), s, cur + 1),
        forall|i: int|
            0 <= i < p.header.deep_view().len() ==> (
            #[trigger] p.header.deep_view()[i]).len() <= usize::MAX,
        h as i128 == s[cur] && labels.len() < h && prefix_at(
            spec_encode_labels(labels),
            s,
            cur + 1,
        ) && cur2 == cur + 1 + spec_encode_labels(labels).len() ==> ({
            &&& p.header.deep_view().len() == h
            &&& prefix_at(
                spec_encode_label(p.header.deep_view()[labels.len() as int]),
                s,
                cur2,
            )
            &&& p.header.deep_view()[labels.len() as int].len() <= usize::MAX
        }),
{
    lemma_pop_parts(p, s, t, best, end_t, end_b);
    lemma_individuals_align(parsed, p.individuals@, s, end_b + 1);
    assert(p.individuals@.subrange(0, p.individuals@.len() as int) =~= p.individuals@);
    lemma_population_prefix(p, s, 0);
    let q2: int = 6 + spec_encode_training(p.training_data).len() as int + spec_encode_individual(
        p.best,
    ).len() as int + spec_encode_individuals(p.individuals@).len() as int;
    assert(q2 == cur);
    assert(s.subrange(q2, q2 + 1)[0] == s[q2]);
    assert(p.header.len() == p.header@.len());
    assert(p.header.deep_view().len() == p.header@.len());
    assert forall|i: int| 0 <= i < p.header.deep_view().len() implies (
    #[trigger] p.header.deep_view()[i]).len() <= usize::MAX by {
        assert(p.header.deep_view()[i] =~= p.header@[i]@);
        assert(p.header@[i].len() == p.header@[i]@.len());
    }
    if h as i128 == s[cur] && labels.len() < h && prefix_at(spec_encode_labels(labels), s, cur + 1)
        && cur2 == cur + 1 + spec_encode_labels(labels).len() {
        assert(p.header.deep_view().len() == h);
        lemma_labels_align(labels, p.header.deep_view(), s, cur + 1);
        let k2 = labels.len() as int;
        let rest = p.header.deep_view().subrange(k2, p.header.deep_view().len() as int);
        assert(rest.len() > 0);
        assert(rest[0] == p.header.deep_view()[k2]);
        assert(spec_encode_labels(rest) == spec_encode_label(rest[0]) + spec_encode_labels(
            rest.drop_first(),
        ));
        lemma_prefix_split(
            spec_encode_label(rest[0]),
            spec_encode_labels(rest.drop_first()),
            s,
            cur2,
        );
    }
}

/// Deserializes a whole population from exactly these words; a stream that
/// is not the encoding of an encodable population -- well-formed, genes in
/// range, every stored cost the scorer's own value for its genotype
/// against the stored dataset -- is rejected as malformed.  Together with
/// [`encode_population`] this is the round trip: decoding an encoded
/// population succeeds and reproduces its individuals, best slot, dataset,
/// header and configuration exactly.
#[verifier::rlimit(60)]
#[verifier::loop_isolation(false)]
pub fn decode_population(words: &Vec<i128>) -> (r: Result<Population, Error>)
    ensures
        r is Ok ==> words@ == spec_encode_population(r->Ok_0) && r->Ok_0.wf() && genes_bounded(
            r->Ok_0.best.genotype@,
        ),
        forall|p: Population|
            encodable(p) && words@ == #[trigger] spec_encode_population(p) ==> r is Ok
                && same_population(r->Ok_0, p),
        r is Err ==> r == Err::<Population, Error>(Error::MalformedInput),
{
    proof {
        assert forall|p: Population| words@ == #[trigger] spec_encode_population(p)
            implies prefix_at(spec_encode_population(p), words@, 0) by {
            assert(words@.subrange(0, words@.len() as int) =~= words@);
        }
    }
    let len = words.len();
    if len < 5 {
        proof {
            assert forall|p: Population|
                encodable(p) && prefix_at(#[trigger] spec_encode_population(p), words@, 0)
                implies false by {
                lemma_population_prefix(p, words@, 0);
            }
        }
        return Err(Error::MalformedInput);
    }
    let w0 = words[0];
    let w1 = words[1];
    let w2 = words[2];
    let w3 = words[3];
    let w4 = words[4];
    proof {
        assert forall|p: Population|
            encodable(p) && prefix_at(#[trigger] spec_encode_population(p), words@, 0)
            implies p.max_children_size as i128 == words@[0] && p.genotype_size as i128
            == words@[1] && p.crossover_chance as i128 == words@[2] && p.mutation_chance as i128
            == words@[3] && p.max_age as i128 == words@[4] by {
            lemma_population_prefix(p, words@, 0);
            assert(words@.subrange(0, 5)[0] == words@[0]);
            assert(words@.subrange(0, 5)[1] == words@[1]);
            assert(words@.subrange(0, 5)[2] == words@[2]);
            assert(words@.subrange(0, 5)[3] == words@[3]);
            assert(words@.subrange(0, 5)[4] == words@[4]);
        }
    }
    if w0 < 0 || w0 > (usize::MAX as i128) || w1 < 0 || w1 > (usize::MAX as i128) {
        return Err(Error::MalformedInput);
    }
    if w2 < 0 || w2 > (crate::fixed::SCALE as i128) || w3 < 0 || w3 > (
    crate::fixed::SCALE as i128) {
        return Err(Error::MalformedInput);
    }
    if w4 < 1 || w4 > (usize::MAX as i128) {
        return Err(Error::MalformedInput);
    }
    let max_children_size = w0 as usize;
    let gs = w1 as usize;
    let crossover_chance = w2 as i64;
    let mutation_chance = w3 as i64;
    let max_age = w4 as usize;
    let t_opt = decode_training_at(words, 5);
    proof {
        assert forall|p: Population|
            encodable(p) && prefix_at(#[trigger] spec_encode_population(p), words@, 0)
            implies t_opt is Some by {
            lemma_population_prefix(p, words@, 0);
        }
    }
    let (t, end_t) = match t_opt {
        None => {
            return Err(Error::MalformedInput);
        },
        Some(pair) => pair,
    };
    if t.genotype_size != gs {
        proof {
            assert forall|p: Population|
                encodable(p) && prefix_at(#[trigger] spec_encode_population(p), words@, 0)
                implies false by {
                lemma_population_prefix(p, words@, 0);
                lemma_training_unique(t, p.training_data, words@, 5);
            }
        }
        return Err(Error::MalformedInput);
    }
    let best_opt = decode_individual_at(words, end_t);
    proof {
        assert forall|p: Population|
            encodable(p) && prefix_at(#[trigger] spec_encode_population(p), words@, 0)
            implies best_opt is Some by {
            lemma_population_prefix(p, words@, 0);
            lemma_training_unique(t, p.training_data, words@, 5);
        }
    }
    let (best, end_b) = match best_opt {
        None => {
            return Err(Error::MalformedInput);
        },
        Some(pair) => pair,
    };
    proof {
        assert forall|p: Population|
            encodable(p) && prefix_at(#[trigger] spec_encode_population(p), words@, 0)
            implies end_b < words@.len() && p.individuals@.len() as i128 == words@[end_b as int]
            && p.individuals@.len() <= usize::MAX by {
            lemma_pop_parts(p, words@, t, best, end_t as int, end_b as int);
        }
    }
    if end_b >= len {
        return Err(Error::MalformedInput);
    }
    let wn = words[end_b];
    if wn < 0 || wn > (usize::MAX as i128) {
        return Err(Error::MalformedInput);
    }
    let n = wn as usize;
    let ind_base = end_b + 1;
    let mut inds: Vec<Individual> = Vec::new();
    let mut cur: usize = ind_base;
    proof {
        assert(words@.subrange(ind_base as int, ind_base as int) =~= spec_encode_individuals(
            inds@,
        ));
    }
    let mut k: usize = 0;
    while k < n
        invariant
            0 <= k <= n,
            inds@.len() == k,
            ind_base <= cur <= words@.len(),
            words@.subrange(ind_base as int, cur as int) == spec_encode_individuals(inds@),
            forall|i: int|
                0 <= i < k ==> genes_bounded((#[trigger] inds@[i]).genotype@)
                    && inds@[i].genotype@.len() == gs && inds@[i].fitness
                    == crate::score::spec_score(inds@[i].genotype@, t.rows()),
        decreases n - k,
    {
        proof {
            assert(prefix_at(spec_encode_individuals(inds@), words@, ind_base as int));
            assert forall|p: Population|
                encodable(p) && prefix_at(#[trigger] spec_encode_population(p), words@, 0)
                implies prefix_at(
                spec_encode_individual(p.individuals@[k as int]),
                words@,
                cur as int,
            ) && genes_bounded(p.individuals@[k as int].genotype@) && crate::population::member_ok(
                p.individuals@[k as int],
                p.training_data,
            ) && same_training(t, p.training_data) by {
                lemma_pop_next_individual(
                    p,
                    words@,
                    t,
                    best,
                    inds@,
                    end_t as int,
                    end_b as int,
                    cur as int,
                    n as int,
                );
            }
        }
        let ind_opt = decode_individual_at(words, cur);
        let (ind, nxt) = match ind_opt {
            None => {
                return Err(Error::MalformedInput);
            },
            Some(pair) => pair,
        };
        proof {
            assert forall|p: Population|
                encodable(p) && prefix_at(#[trigger] spec_encode_population(p), words@, 0)
                implies same_individual(ind, p.individuals@[k as int]) by {
                assert(prefix_at(spec_encode_individual(ind), words@, cur as int));
                lemma_individual_unique(ind, p.individuals@[k as int], words@, cur as int);
            }
        }
        if ind.genotype.len() != gs {
            return Err(Error::MalformedInput);
        }
        let f2 = crate::score::calculate_fitness(&ind.genotype, &t);
        if ind.fitness != f2 {
            proof {
                assert forall|p: Population|
                    encodable(p) && prefix_at(#[trigger] spec_encode_population(p), words@, 0)
                    implies false by {
                    assert(same_individual(ind, p.individuals@[k as int]));
                    assert(same_training(t, p.training_data));
                    assert(crate::population::member_ok(
                        p.individuals@[k as int],
                        p.training_data,
                    ));
                }
            }
            return Err(Error::MalformedInput);
        }
        let ghost before = inds@;
        inds.push(ind);
        proof {
            lemma_encode_individuals_push(before, ind);
            assert(words@.subrange(ind_base as int, nxt as int) =~= words@.subrange(
                ind_base as int,
                cur as int,
            ) + words@.subrange(cur as int, nxt as int));
        }
        cur = nxt;
        k = k + 1;
    }
    proof {
        assert forall|p: Population|
            encodable(p) && prefix_at(#[trigger] spec_encode_population(p), words@, 0)
            implies cur < words@.len() && p.header@.len() as i128 == words@[cur as int]
            && p.header@.len() <= usize::MAX by {
            lemma_pop_labels(
                p,
                words@,
                t,
                best,
                inds@,
                Seq::<Seq<u8>>::empty(),
                end_t as int,
                end_b as int,
                cur as int,
                cur as int + 1,
                n as int,
                0,
            );
        }
    }
    if cur >= len {
        return Err(Error::MalformedInput);
    }
    let wh = words[cur];
    if wh < 0 || wh > (usize::MAX as i128) {
        return Err(Error::MalformedInput);
    }
    let h = wh as usize;
    let label_base = cur + 1;
    let mut header: Vec<Vec<u8>> = Vec::new();
    let mut cur2: usize = label_base;
    proof {
        assert(header.deep_view().len() == 0);
        assert(words@.subrange(label_base as int, label_base as int) =~= spec_encode_labels(
            header.deep_view(),
        ));
    }
    let mut k2: usize = 0;
    while k2 < h
        invariant
            0 <= k2 <= h,
            header@.len() == k2,
            header.deep_view().len() == k2,
            label_base <= cur2 <= words@.len(),
            words@.subrange(label_base as int, cur2 as int) == spec_encode_labels(
                header.deep_view(),
            ),
        decreases h - k2,
    {
        proof {
            assert forall|i: int| 0 <= i < header.deep_view().len() implies (
            #[trigger] header.deep_view()[i]).len() <= usize::MAX by {
                assert(header.deep_view()[i] =~= header@[i]@);
                assert(header@[i].len() == header@[i]@.len());
            }
            assert(prefix_at(
                spec_encode_labels(header.deep_view()),
                words@,
                label_base as int,
            ));
            assert forall|p: Population|
                encodable(p) && prefix_at(#[trigger] spec_encode_population(p), words@, 0)
                implies prefix_at(
                spec_encode_label(p.header.deep_view()[k2 as int]),
                words@,
                cur2 as int,
            ) && p.header.deep_view()[k2 as int].len() <= usize::MAX by {
                lemma_pop_labels(
                    p,
                    words@,
                    t,
                    best,
                    inds@,
                    header.deep_view(),
                    end_t as int,
                    end_b as int,
                    cur as int,
                    cur2 as int,
                    n as int,
                    h as int,
                );
            }
        }
        let lab_opt = decode_label_at(words, cur2);
        let (label, nxt) = match lab_opt {
            None => {
                return Err(Error::MalformedInput);
            },
            Some(pair) => pair,
        };
        let ghost before = header.deep_view();
        header.push(label);
        proof {
            assert(header.deep_view() =~~= before.push(label@));
            lemma_encode_labels_push(before, label@);
            assert(words@.subrange(label_base as int, nxt as int) =~= words@.subrange(
                label_base as int,
                cur2 as int,
            ) + words@.subrange(cur2 as int, nxt as int));
        }
        cur2 = nxt;
        k2 = k2 + 1;
    }
    let q = Population {
        individuals: inds,
        best,
        training_data: t,
        header,
        max_children_size,
        genotype_size: gs,
        crossover_chance,
        mutation_chance,
        max_age,
    };
    proof {
        assert(q.wf()) by {
            assert forall|i: int|
                0 <= i < q.individuals@.len() implies crate::population::member_ok(
                #[trigger] q.individuals@[i],
                q.training_data,
            ) by {
            }
        }
        let h5 = seq![w0, w1, w2, w3, w4];
        assert(words@.subrange(0, 5) =~= h5);
        assert(words@.subrange(0, end_t as int) =~= words@.subrange(0, 5) + words@.subrange(
            5,
            end_t as int,
        ));
        assert(words@.subrange(0, end_b as int) =~= words@.subrange(0, end_t as int)
            + words@.subrange(end_t as int, end_b as int));
        assert(words@.subrange(end_b as int, ind_base as int) =~= seq![wn]);
        assert(words@.subrange(0, ind_base as int) =~= words@.subrange(0, end_b as int)
            + words@.subrange(end_b as int, ind_base as int));
        assert(words@.subrange(0, cur as int) =~= words@.subrange(0, ind_base as int)
            + words@.subrange(ind_base as int, cur as int));
        assert(words@.subrange(cur as int, label_base as int) =~= seq![wh]);
        assert(words@.subrange(0, label_base as int) =~= words@.subrange(0, cur as int)
            + words@.subrange(cur as int, label_base as int));
        assert(words@.subrange(0, cur2 as int) =~= words@.subrange(0, label_base as int)
            + words@.subrange(label_base as int, cur2 as int));
        assert(h5 =~= seq![
            q.max_children_size as i128,
            q.genotype_size as i128,
            q.crossover_chance as i128,
            q.mutation_chance as i128,
            q.max_age as i128,
        ]);
        assert(inds@.len() == n);
        assert(seq![wn] =~= seq![q.individuals@.len() as i128]);
        assert(q.header@.len() == h);
        assert(seq![wh] =~= seq![q.header@.len() as i128]);
        assert(words@.subrange(0, cur2 as int) =~= spec_encode_population(q));
        assert(prefix_at(spec_encode_population(q), words@, 0));
    }
    if cur2 != len {
        proof {
            assert forall|p: Population|
                encodable(p) && words@ == #[trigger] spec_encode_population(p)
                implies false by {
                lemma_population_unique(q, p, words@, 0);
                assert(spec_encode_population(p).len() == words@.len());
                assert(spec_encode_population(q).len() == cur2);
            }
        }
        return Err(Error::MalformedInput);
    }
    proof {
        assert(words@.subrange(0, cur2 as int) =~= words@);
        assert forall|p: Population|
            encodable(p) && words@ == #[trigger] spec_encode_population(p)
            implies same_population(q, p) by {
            lemma_population_unique(q, p, words@, 0);
        }
    }
    Ok(q)
}

} // verus!
