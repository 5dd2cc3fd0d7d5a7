//! The query engine: significance filtering over the snapshot, the four
//! result shapes shared by both entry points, and trait-label resolution.
use vstd::prelude::*;
use crate::data::{Association, AssocView, Efo, EfoView, AzAssociation, AzAssocView};
use crate::pvalue::{spec_lt, spec_threshold, sci_str, to_sci};
use crate::text::{dec_str, u64_to_string, split_spec, split_char, trim, trim_of, to_upper, upper_of};
use crate::order::{views_of, all_wf_assocs};
use crate::ontology::efo_views;

verus! {

// ---------------------------------------------------------------------------
// Gene-list normalization and trait-label resolution.
// ---------------------------------------------------------------------------
/// One requested gene entry, split on commas, each piece trimmed and
/// upper-cased.
pub open spec fn norm_one(x: Seq<char>) -> Seq<Seq<char>> {
    split_spec(x, ',').map_values(|p: Seq<char>| upper_of(trim_of(p)))
}

/// All requested gene entries, flattened in order.
pub open spec fn genes_norm(xs: Seq<Seq<char>>) -> Seq<Seq<char>>
    decreases xs.len(),
{
    if xs.len() == 0 {
        Seq::empty()
    } else {
        genes_norm(xs.drop_last()) + norm_one(xs.last())
    }
}

/// Normalizes the requested gene names: each argument may hold several
/// comma-separated names; every name is trimmed and upper-cased.
pub fn parse_genes(genes: &Vec<String>) -> (r: Vec<String>)
    ensures
        r.deep_view() == genes_norm(genes.deep_view()),
{
    let ghost gs = genes.deep_view();
    let mut out: Vec<String> = Vec::new();
    let mut i: usize = 0;
    while i < genes.len()
        invariant
            0 <= i <= genes@.len(),
            gs == genes.deep_view(),
            gs.len() == genes@.len(),
            out.deep_view() =~= genes_norm(gs.subrange(0, i as int)),
        decreases genes@.len() - i,
    {
        proof {
            assert(gs[i as int] == genes@[i as int]@);
        }
        let pieces = split_char(genes[i].as_str(), ',');
        let ghost pv = split_spec(gs[i as int], ',');
        let mut k: usize = 0;
        while k < pieces.len()
            invariant
                0 <= k <= pieces@.len(),
                pv == split_spec(gs[i as int], ','),
                pieces.deep_view() == pv,
                pieces@.len() == pv.len(),
                0 <= i < gs.len(),
                out.deep_view() =~= genes_norm(gs.subrange(0, i as int)) + pv.subrange(
                    0,
                    k as int,
                ).map_values(|p: Seq<char>| upper_of(trim_of(p))),
            decreases pieces@.len() - k,
        {
            proof {
                assert(pv[k as int] == pieces@[k as int]@);
            }
            let t = trim(pieces[k].as_str());
            let u = to_upper(t.as_str());
            let ghost prev = out.deep_view();
            out.push(u);
            proof {
                assert(out.deep_view() =~= prev.push(upper_of(trim_of(pv[k as int]))));
                assert(pv.subrange(0, k + 1).map_values(|p: Seq<char>| upper_of(trim_of(p)))
                    =~= pv.subrange(0, k as int).map_values(
                    |p: Seq<char>| upper_of(trim_of(p)),
                ).push(upper_of(trim_of(pv[k as int]))));
            }
            k += 1;
        }
        proof {
            assert(pv.subrange(0, pv.len() as int) =~= pv);
            assert(gs.subrange(0, i + 1).drop_last() =~= gs.subrange(0, i as int));
            assert(gs.subrange(0, i + 1).last() == gs[i as int]);
            assert(out.deep_view() =~= genes_norm(gs.subrange(0, i + 1)));
        }
        i += 1;
    }
    proof {
        assert(gs.subrange(0, gs.len() as int) =~= gs);
    }
    out
}

/// First index whose primary label equals the query.
pub open spec fn find_label_idx(s: Seq<EfoView>, q: Seq<char>) -> int
    decreases s.len(),
{
    if s.len() == 0 {
        0
    } else if s[0].label == q {
        0
    } else {
        1 + find_label_idx(s.drop_first(), q)
    }
}

/// First index whose synonym set holds the query.
pub open spec fn find_syn_idx(s: Seq<EfoView>, q: Seq<char>) -> int
    decreases s.len(),
{
    if s.len() == 0 {
        0
    } else if s[0].synonyms.contains(q) {
        0
    } else {
        1 + find_syn_idx(s.drop_first(), q)
    }
}

/// Resolves an upper-cased trait label: exact primary-label match first,
/// then the first node holding the query among its synonyms, then nothing.
pub fn find_efo(efos: &Vec<Efo>, label: &String) -> (r: Option<usize>)
    ensures
        ({
            let s = efo_views(efos@);
            let li = find_label_idx(s, label@);
            let si = find_syn_idx(s, label@);
            if li < s.len() {
                r == Some(li as usize)
            } else if si < s.len() {
                r == Some(si as usize)
            } else {
                r is None
            }
        }),
        r matches Some(i) ==> i < efos@.len(),
{
    let ghost s = efo_views(efos@);
    let mut i: usize = 0;
    proof {
        assert(s.skip(0) =~= s);
    }
    while i < efos.len()
        invariant
            0 <= i <= efos@.len(),
            s == efo_views(efos@),
            s.len() == efos@.len(),
            find_label_idx(s, label@) == i + find_label_idx(s.skip(i as int), label@),
            forall|k: int| 0 <= k < i ==> s[k].label != label@,
        decreases efos@.len() - i,
    {
        proof {
            assert(s.skip(i as int)[0] == s[i as int]);
            assert(s[i as int] == efos@[i as int]@);
            assert(s.skip(i as int).drop_first() =~= s.skip(i + 1));
        }
        if efos[i].label == *label {
            return Some(i);
        }
        i += 1;
    }
    proof {
        assert(s.skip(i as int) =~= Seq::<EfoView>::empty());
        assert(find_label_idx(s, label@) == s.len());
    }
    let mut j: usize = 0;
    proof {
        assert(s.skip(0) =~= s);
    }
    while j < efos.len()
        invariant
            0 <= j <= efos@.len(),
            s == efo_views(efos@),
            s.len() == efos@.len(),
            find_label_idx(s, label@) == s.len(),
            find_syn_idx(s, label@) == j + find_syn_idx(s.skip(j as int), label@),
            forall|k: int| 0 <= k < j ==> !s[k].synonyms.contains(label@),
        decreases efos@.len() - j,
    {
        proof {
            assert(s.skip(j as int)[0] == s[j as int]);
            assert(s[j as int] == efos@[j as int]@);
            assert(s.skip(j as int).drop_first() =~= s.skip(j + 1));
        }
        if efos[j].has_synonym(label) {
            return Some(j);
        }
        j += 1;
    }
    proof {
        assert(s.skip(j as int) =~= Seq::<EfoView>::empty());
        assert(find_syn_idx(s, label@) == s.len());
    }
    None
}

/// Whether every association in the snapshot is well-formed. Archive
/// decoding is unchecked by design, so a caller tests the decoded snapshot
/// with this before querying it.
pub fn associations_wf(v: &Vec<Association>) -> (r: bool)
    ensures
        r == all_wf_assocs(v@),
{
    let mut i: usize = 0;
    while i < v.len()
        invariant
            0 <= i <= v@.len(),
            forall|k: int| 0 <= k < i ==> (#[trigger] v@[k]).wf(),
        decreases v@.len() - i,
    {
        if !v[i].check_wf() {
            return false;
        }
        i += 1;
    }
    true
}

// ---------------------------------------------------------------------------
// Significance filtering.
// ---------------------------------------------------------------------------
/// The associations that are significant and carry the queried trait id.
pub open spec fn significant_for(s: Seq<AssocView>, efo: u32) -> Seq<AssocView> {
    s.filter(|a: AssocView| spec_lt(a.p_value, spec_threshold()) && a.traits.contains(efo))
}

/// Filters the snapshot to the significant associations of one trait.
pub fn filter_significant(associations: &Vec<Association>, efo: u32) -> (r: Vec<Association>)
    ensures
        views_of(r@) == significant_for(views_of(associations@), efo),
{
    let ghost s = views_of(associations@);
    let ghost pred = |a: AssocView| spec_lt(a.p_value, spec_threshold()) && a.traits.contains(efo);
    let mut out: Vec<Association> = Vec::new();
    let mut i: usize = 0;
    proof {
        reveal(Seq::filter);
        assert(s.subrange(0, 0) =~= Seq::<AssocView>::empty());
        assert(views_of(out@) =~= s.subrange(0, 0).filter(pred));
    }
    while i < associations.len()
        invariant
            0 <= i <= associations@.len(),
            s == views_of(associations@),
            s.len() == associations@.len(),
            views_of(out@) =~= s.subrange(0, i as int).filter(
                |a: AssocView| spec_lt(a.p_value, spec_threshold()) && a.traits.contains(efo),
            ),
        decreases associations@.len() - i,
    {
        proof {
            reveal(Seq::filter);
            assert(s[i as int] == associations@[i as int]@);
            assert(s.subrange(0, i + 1).drop_last() =~= s.subrange(0, i as int));
            assert(s.subrange(0, i + 1).last() == s[i as int]);
        }
        let a = &associations[i];
        if a.is_significant() && a.is_associated_with(efo) {
            let ghost prev = views_of(out@);
            let copy = clone_assoc(a);
            out.push(copy);
            proof {
                assert(views_of(out@) =~= prev.push(s[i as int]));
            }
        }
        i += 1;
    }
    proof {
        reveal(Seq::filter);
        assert(s.subrange(0, s.len() as int) =~= s);
    }
    out
}

/// A field-for-field copy with the same view.
pub fn clone_assoc(a: &Association) -> (r: Association)
    ensures
        r@ == a@,
{
    broadcast use vstd::std_specs::vec::vec_clone_deep_view_proof;

    let traits = a.traits.clone();
    let mapped_gene = a.mapped_gene.clone();
    proof {
        assert(traits@ =~= a.traits@) by {
            assert(traits.deep_view() =~= a.traits.deep_view());
            assert forall|k: int| 0 <= k < traits@.len() implies traits@[k] == a.traits@[k] by {
                assert(traits.deep_view()[k] == traits@[k]);
                assert(a.traits.deep_view()[k] == a.traits@[k]);
            }
        }
    }
    let r = Association {
        traits,
        p_value: a.p_value,
        mapped_gene,
        accession_id: a.accession_id,
        pubmed: a.pubmed,
    };
    proof {
        assert(r@ =~= a@);
    }
    r
}

// ---------------------------------------------------------------------------
// Rendered rows.
// ---------------------------------------------------------------------------
/// One full-association row: joined gene names, the p-value in scientific
/// notation, the accession id under its textual prefix, and the
/// bibliographic id raw or as a link.
pub struct AssocRow {
    pub genes: String,
    pub p_value: String,
    pub accession: String,
    pub pubmed: String,
}

/// The gene names joined with a comma and a space.
pub open spec fn join_genes(v: Seq<Seq<char>>) -> Seq<char>
    decreases v.len(),
{
    if v.len() == 0 {
        Seq::empty()
    } else if v.len() == 1 {
        v[0]
    } else {
        join_genes(v.drop_last()) + ", "@ + v.last()
    }
}

pub open spec fn accession_text(id: u32) -> Seq<char> {
    "GCST"@ + dec_str(id as nat)
}

pub open spec fn pubmed_text(id: u32, links: bool) -> Seq<char> {
    if links {
        "https://pubmed.ncbi.nlm.nih.gov/"@ + dec_str(id as nat)
    } else {
        dec_str(id as nat)
    }
}

/// Joins gene names for a row.
pub fn join_genes_exec(v: &Vec<String>) -> (r: String)
    ensures
        r@ == join_genes(v.deep_view()),
{
    let ghost w = v.deep_view();
    let mut out = String::new();
    let mut i: usize = 0;
    while i < v.len()
        invariant
            0 <= i <= v@.len(),
            w == v.deep_view(),
            w.len() == v@.len(),
            out@ =~= join_genes(w.subrange(0, i as int)),
        decreases v@.len() - i,
    {
        proof {
            assert(w[i as int] == v@[i as int]@);
            assert(w.subrange(0, i + 1).drop_last() =~= w.subrange(0, i as int));
            assert(w.subrange(0, i + 1).last() == w[i as int]);
            reveal_strlit(", ");
        }
        if i > 0 {
            out.append(", ");
        }
        out.append(v[i].as_str());
        proof {
            if i == 0 {
                assert(w.subrange(0, 1).len() == 1);
                assert(out@ =~= join_genes(w.subrange(0, 1)));
            } else {
                assert(out@ =~= join_genes(w.subrange(0, i + 1)));
            }
        }
        i += 1;
    }
    proof {
        assert(w.subrange(0, w.len() as int) =~= w);
    }
    out
}

fn accession_exec(id: u32) -> (r: String)
    ensures
        r@ == accession_text(id),
{
    let mut out = String::new();
    out.append("GCST");
    let digits = u64_to_string(id as u64);
    out.append(digits.as_str());
    proof {
        assert(out@ =~= accession_text(id));
    }
    out
}

fn pubmed_exec(id: u32, links: bool) -> (r: String)
    ensures
        r@ == pubmed_text(id, links),
{
    let mut out = String::new();
    if links {
        out.append("https://pubmed.ncbi.nlm.nih.gov/");
    }
    let digits = u64_to_string(id as u64);
    out.append(digits.as_str());
    proof {
        assert(out@ =~= pubmed_text(id, links));
    }
    out
}

/// The rendered row of one association.
pub open spec fn row_view_ok(a: AssocView, links: bool, row: &AssocRow) -> bool {
    &&& row.genes@ == join_genes(a.mapped_gene)
    &&& row.p_value@ == sci_str(a.p_value)
    &&& row.accession@ == accession_text(a.accession_id)
    &&& row.pubmed@ == pubmed_text(a.pubmed, links)
}

fn render_row(a: &Association, links: bool) -> (r: AssocRow)
    requires
        a.p_value.wf(),
    ensures
        row_view_ok(a@, links, &r),
{
    AssocRow {
        genes: join_genes_exec(&a.mapped_gene),
        p_value: to_sci(&a.p_value),
        accession: accession_exec(a.accession_id),
        pubmed: pubmed_exec(a.pubmed, links),
    }
}

// ---------------------------------------------------------------------------
// The four result shapes.
// ---------------------------------------------------------------------------
/// Gene names of the surviving associations, first occurrence kept.
pub open spec fn gene_union(res: Seq<AssocView>, n: int) -> Seq<Seq<char>>
    decreases n,
{
    if n <= 0 {
        Seq::empty()
    } else {
        let prev = gene_union(res, n - 1);
        union_push(prev, res[n - 1].mapped_gene, res[n - 1].mapped_gene.len() as int)
    }
}

/// Adds the genes of one association that are not already present.
pub open spec fn union_push(acc: Seq<Seq<char>>, gs: Seq<Seq<char>>, k: int) -> Seq<Seq<char>>
    decreases k,
{
    if k <= 0 {
        acc
    } else {
        let prev = union_push(acc, gs, k - 1);
        if prev.contains(gs[k - 1]) {
            prev
        } else {
            prev.push(gs[k - 1])
        }
    }
}

/// Whether some surviving association carries the gene.
pub open spec fn gene_hit(res: Seq<AssocView>, g: Seq<char>) -> bool {
    exists|i: int| 0 <= i < res.len() && (#[trigger] res[i]).mapped_gene.contains(g)
}

/// The result of a trait query.
pub enum QueryOutput {
    /// No significant association carries the trait.
    NoSignificant,
    /// One row per surviving association.
    Rows(Vec<AssocRow>),
    /// The deduplicated union of surviving gene names.
    Genes(Vec<String>),
    /// For each requested gene, the rows of the surviving associations
    /// that carry it.
    PerGene(Vec<GeneRows>),
    /// The requested genes split into hits and misses, input order kept.
    Partition { associated: Vec<String>, not_associated: Vec<String> },
}

pub struct GeneRows {
    pub gene: String,
    pub rows: Vec<AssocRow>,
}

pub open spec fn rows_match(res: Seq<AssocView>, links: bool, rows: Seq<AssocRow>) -> bool {
    rows.len() == res.len() && (forall|i: int|
        0 <= i < res.len() ==> row_view_ok(res[i], links, &rows[i]))
}

/// Evaluates a trait query over the snapshot: filters to the significant
/// associations carrying the trait id, then shapes the result by the
/// requested gene filter and display mode.
pub fn query(
    efo: &Efo,
    genes: Vec<String>,
    associations: &Vec<Association>,
    with_associations: bool,
    with_pubmed_links: bool,
) -> (r: QueryOutput)
    requires
        forall|i: int| 0 <= i < associations@.len() ==> (#[trigger] associations@[i]).wf(),
    ensures
        ({
            let res = significant_for(views_of(associations@), efo.id);
            &&& (r is NoSignificant <==> res.len() == 0)
            &&& (r matches QueryOutput::Rows(rows) ==> genes@.len() == 0 && with_associations
                && rows_match(res, with_pubmed_links, rows@))
            &&& (r matches QueryOutput::Genes(gs) ==> genes@.len() == 0 && !with_associations
                && gs.deep_view() == gene_union(res, res.len() as int))
            &&& (r matches QueryOutput::PerGene(pgs) ==> genes@.len() > 0 && with_associations && {
                &&& pgs@.len() == genes@.len()
                &&& forall|i: int|
                    0 <= i < pgs@.len() ==> (#[trigger] pgs@[i]).gene@ == genes.deep_view()[i]
                        && rows_match(
                        res.filter(|a: AssocView| a.mapped_gene.contains(genes.deep_view()[i])),
                        with_pubmed_links,
                        pgs@[i].rows@,
                    )
            })
            &&& (r matches QueryOutput::Partition { associated, not_associated } ==> genes@.len()
                > 0 && !with_associations && associated.deep_view() == genes.deep_view().filter(
                |g: Seq<char>| gene_hit(res, g),
            ) && not_associated.deep_view() == genes.deep_view().filter(
                |g: Seq<char>| !gene_hit(res, g),
            ))
            &&& (res.len() > 0 ==> (if genes@.len() == 0 && with_associations {
                r is Rows
            } else if genes@.len() == 0 {
                r is Genes
            } else if with_associations {
                r is PerGene
            } else {
                r is Partition
            }))
        }),
{
    let results = filter_significant(associations, efo.id);
    let ghost res = significant_for(views_of(associations@), efo.id);
    proof {
        lemma_filtered_wf(associations@, results@, efo.id);
        assert(res.len() == results@.len());
    }
    if results.len() == 0 {
        return QueryOutput::NoSignificant;
    }
    if genes.len() == 0 {
        if with_associations {
            let mut rows: Vec<AssocRow> = Vec::new();
            let mut i: usize = 0;
            while i < results.len()
                invariant
                    0 <= i <= results@.len(),
                    res == views_of(results@),
                    res.len() == results@.len(),
                    forall|k: int| 0 <= k < results@.len() ==> (#[trigger] results@[k]).wf(),
                    rows@.len() == i,
                    forall|k: int|
                        0 <= k < i ==> row_view_ok(res[k], with_pubmed_links, &rows@[k]),
                decreases results@.len() - i,
            {
                proof {
                    assert(res[i as int] == results@[i as int]@);
                }
                let row = render_row(&results[i], with_pubmed_links);
                rows.push(row);
                i += 1;
            }
            return QueryOutput::Rows(rows);
        }
        // the deduplicated union of gene names
        let mut gs: Vec<String> = Vec::new();
        let mut i: usize = 0;
        while i < results.len()
            invariant
                0 <= i <= results@.len(),
                res == views_of(results@),
                res.len() == results@.len(),
                gs.deep_view() =~= gene_union(res, i as int),
            decreases results@.len() - i,
        {
            proof {
                assert(res[i as int] == results@[i as int]@);
            }
            let a = &results[i];
            let ghost ag = res[i as int].mapped_gene;
            let mut k: usize = 0;
            while k < a.mapped_gene.len()
                invariant
                    0 <= k <= a.mapped_gene@.len(),
                    0 <= i < res.len(),
                    res == views_of(results@),
                    res.len() == results@.len(),
                    ag == res[i as int].mapped_gene,
                    a == &results[i as int],
                    ag == a.mapped_gene.deep_view(),
                    ag.len() == a.mapped_gene@.len(),
                    gs.deep_view() =~= union_push(gene_union(res, i as int), ag, k as int),
                decreases a.mapped_gene@.len() - k,
            {
                proof {
                    assert(ag[k as int] == a.mapped_gene@[k as int]@);
                }
                let g = &a.mapped_gene[k];
                let mut present = false;
                let mut q: usize = 0;
                while q < gs.len()
                    invariant
                        0 <= q <= gs@.len(),
                        present <==> exists|w: int|
                            0 <= w < q && gs.deep_view()[w] == g@,
                    decreases gs@.len() - q,
                {
                    proof {
                        assert(gs.deep_view()[q as int] == gs@[q as int]@);
                    }
                    if gs[q] == *g {
                        present = true;
                    }
                    q += 1;
                }
                proof {
                    assert(present <==> gs.deep_view().contains(g@));
                }
                if !present {
                    let ghost prev = gs.deep_view();
                    let copy = g.clone();
                    gs.push(copy);
                    proof {
                        assert(gs.deep_view() =~= prev.push(ag[k as int]));
                    }
                }
                k += 1;
            }
            i += 1;
        }
        return QueryOutput::Genes(gs);
    }
    if with_associations {
        let ghost gsv = genes.deep_view();
        let mut pgs: Vec<GeneRows> = Vec::new();
        let mut i: usize = 0;
        while i < genes.len()
            invariant
                0 <= i <= genes@.len(),
                res == views_of(results@),
                res.len() == results@.len(),
                forall|k: int| 0 <= k < results@.len() ==> (#[trigger] results@[k]).wf(),
                gsv == genes.deep_view(),
                gsv.len() == genes@.len(),
                pgs@.len() == i,
                forall|k: int|
                    0 <= k < i ==> (#[trigger] pgs@[k]).gene@ == gsv[k] && rows_match(
                        res.filter(|a: AssocView| a.mapped_gene.contains(gsv[k])),
                        with_pubmed_links,
                        pgs@[k].rows@,
                    ),
            decreases genes@.len() - i,
        {
            proof {
                assert(gsv[i as int] == genes@[i as int]@);
            }
            let g = &genes[i];
            let ghost sub = res.filter(|a: AssocView| a.mapped_gene.contains(gsv[i as int]));
            let mut rows: Vec<AssocRow> = Vec::new();
            let mut k: usize = 0;
            proof {
                reveal(Seq::filter);
                assert(res.subrange(0, 0) =~= Seq::<AssocView>::empty());
            }
            while k < results.len()
                invariant
                    0 <= k <= results@.len(),
                    res == views_of(results@),
                    res.len() == results@.len(),
                    forall|w: int| 0 <= w < results@.len() ==> (#[trigger] results@[w]).wf(),
                    0 <= i < gsv.len(),
                    gsv == genes.deep_view(),
                    g == &genes[i as int],
                    g@ == gsv[i as int],
                    rows@.len() == res.subrange(0, k as int).filter(
                        |a: AssocView| a.mapped_gene.contains(gsv[i as int]),
                    ).len(),
                    rows_match(
                        res.subrange(0, k as int).filter(
                            |a: AssocView| a.mapped_gene.contains(gsv[i as int]),
                        ),
                        with_pubmed_links,
                        rows@,
                    ),
                decreases results@.len() - k,
            {
                proof {
                    reveal(Seq::filter);
                    assert(res[k as int] == results@[k as int]@);
                    assert(res.subrange(0, k + 1).drop_last() =~= res.subrange(0, k as int));
                    assert(res.subrange(0, k + 1).last() == res[k as int]);
                }
                let a = &results[k];
                if vec_contains_string(&a.mapped_gene, g) {
                    let row = render_row(a, with_pubmed_links);
                    let ghost prevr = rows@;
                    rows.push(row);
                    proof {
                        let p = |a: AssocView| a.mapped_gene.contains(gsv[i as int]);
                        assert(res.subrange(0, k + 1).filter(p) =~= res.subrange(0, k as int).filter(
                            p,
                        ).push(res[k as int]));
                    }
                }
                k += 1;
            }
            proof {
                reveal(Seq::filter);
                assert(res.subrange(0, res.len() as int) =~= res);
            }
            let copy = g.clone();
            pgs.push(GeneRows { gene: copy, rows });
            i += 1;
        }
        return QueryOutput::PerGene(pgs);
    }
    // partition into associated and not associated, input order kept
    let ghost gsv = genes.deep_view();
    let mut associated: Vec<String> = Vec::new();
    let mut not_associated: Vec<String> = Vec::new();
    let mut i: usize = 0;
    proof {
        reveal(Seq::filter);
        assert(gsv.subrange(0, 0) =~= Seq::<Seq<char>>::empty());
    }
    while i < genes.len()
        invariant
            0 <= i <= genes@.len(),
            res == views_of(results@),
            res.len() == results@.len(),
            gsv == genes.deep_view(),
            gsv.len() == genes@.len(),
            associated.deep_view() =~= gsv.subrange(0, i as int).filter(
                |g: Seq<char>| gene_hit(res, g),
            ),
            not_associated.deep_view() =~= gsv.subrange(0, i as int).filter(
                |g: Seq<char>| !gene_hit(res, g),
            ),
        decreases genes@.len() - i,
    {
        proof {
            reveal(Seq::filter);
            assert(gsv[i as int] == genes@[i as int]@);
            assert(gsv.subrange(0, i + 1).drop_last() =~= gsv.subrange(0, i as int));
            assert(gsv.subrange(0, i + 1).last() == gsv[i as int]);
        }
        let g = &genes[i];
        let mut hit = false;
        let mut k: usize = 0;
        while k < results.len()
            invariant
                0 <= k <= results@.len(),
                res == views_of(results@),
                res.len() == results@.len(),
                0 <= i < gsv.len(),
                gsv == genes.deep_view(),
                g == &genes[i as int],
                g@ == gsv[i as int],
                hit <==> exists|w: int|
                    0 <= w < k && (#[trigger] res[w]).mapped_gene.contains(gsv[i as int]),
            decreases results@.len() - k,
        {
            proof {
                assert(res[k as int] == results@[k as int]@);
            }
            if vec_contains_string(&results[k].mapped_gene, g) {
                hit = true;
            }
            k += 1;
        }
        proof {
            assert(hit <==> gene_hit(res, gsv[i as int]));
        }
        let copy = g.clone();
        if hit {
            let ghost prev = associated.deep_view();
            associated.push(copy);
            proof {
                assert(associated.deep_view() =~= prev.push(gsv[i as int]));
            }
        } else {
            let ghost prev = not_associated.deep_view();
            not_associated.push(copy);
            proof {
                assert(not_associated.deep_view() =~= prev.push(gsv[i as int]));
            }
        }
        i += 1;
    }
    proof {
        reveal(Seq::filter);
        assert(gsv.subrange(0, gsv.len() as int) =~= gsv);
    }
    QueryOutput::Partition { associated, not_associated }
}

/// Whether the gene list holds this name.
pub fn vec_contains_string(v: &Vec<String>, g: &String) -> (r: bool)
    ensures
        r == v.deep_view().contains(g@),
{
    let mut i: usize = 0;
    while i < v.len()
        invariant
            0 <= i <= v@.len(),
            forall|k: int| 0 <= k < i ==> v.deep_view()[k] != g@,
        decreases v@.len() - i,
    {
        proof {
            assert(v.deep_view()[i as int] == v@[i as int]@);
        }
        if v[i] == *g {
            return true;
        }
        i += 1;
    }
    false
}

/// Filtering a run of well-formed associations keeps them well-formed.
proof fn lemma_filtered_wf(orig: Seq<Association>, kept: Seq<Association>, efo: u32)
    requires
        forall|i: int| 0 <= i < orig.len() ==> (#[trigger] orig[i]).wf(),
        views_of(kept) == significant_for(views_of(orig), efo),
    ensures
        forall|i: int| 0 <= i < kept.len() ==> (#[trigger] kept[i]).p_value.wf(),
        forall|i: int| 0 <= i < kept.len() ==> (#[trigger] kept[i]).wf(),
{
    assert forall|i: int| 0 <= i < kept.len() implies (#[trigger] kept[i]).wf() by {
        assert(views_of(kept)[i] == kept[i]@);
        let s = views_of(orig);
        let pred = |a: AssocView| spec_lt(a.p_value, spec_threshold()) && a.traits.contains(efo);
        assert(s.filter(pred).contains(kept[i]@)) by {
            assert(views_of(kept)[i] == s.filter(pred)[i]);
        }
        lemma_filter_member(s, pred, kept[i]@);
        let j = choose|j: int| 0 <= j < s.len() && s[j] == kept[i]@;
        assert(orig[j]@ == kept[i]@);
        assert(orig[j].wf());
        lemma_wf_from_view(orig[j], kept[i]);
    }
}

/// Every element of a filtered run comes from the run.
proof fn lemma_filter_member(s: Seq<AssocView>, pred: spec_fn(AssocView) -> bool, x: AssocView)
    requires
        s.filter(pred).contains(x),
    ensures
        exists|j: int| 0 <= j < s.len() && s[j] == x,
    decreases s.len(),
{
    reveal(Seq::filter);
    if s.len() > 0 {
        if pred(s.last()) && s.filter(pred).last() == x && s.drop_last().filter(pred).len() + 1
            == s.filter(pred).len() {
            assert(s[s.len() - 1] == s.last());
        }
        if s.drop_last().filter(pred).contains(x) {
            lemma_filter_member(s.drop_last(), pred, x);
            let j = choose|j: int| 0 <= j < s.drop_last().len() && s.drop_last()[j] == x;
            assert(s[j] == x);
        } else {
            // x is the last element
            let fi = choose|fi: int|
                0 <= fi < s.filter(pred).len() && s.filter(pred)[fi] == x;
            if pred(s.last()) {
                if fi < s.drop_last().filter(pred).len() {
                    assert(s.drop_last().filter(pred)[fi] == x);
                    assert(s.drop_last().filter(pred).contains(x));
                } else {
                    assert(s.filter(pred).last() == s.last());
                    assert(s[s.len() - 1] == x);
                }
            } else {
                assert(s.filter(pred)[fi] == s.drop_last().filter(pred)[fi]);
                assert(s.drop_last().filter(pred).contains(x));
            }
        }
    }
}

/// Well-formedness only reads the view.
proof fn lemma_wf_from_view(a: Association, b: Association)
    requires
        a.wf(),
        a@ == b@,
    ensures
        b.wf(),
{
    assert(a@.traits == b@.traits);
    assert(a.p_value == b.p_value);
}


// ---------------------------------------------------------------------------
// The secondary-dataset query: the same four-way structure, with the trait
// matched by exact string equality and a single gene name per record.
// ---------------------------------------------------------------------------
pub open spec fn az_significant_for(s: Seq<AzAssocView>, term: Seq<char>) -> Seq<AzAssocView> {
    s.filter(|a: AzAssocView| spec_lt(a.p_value, spec_threshold()) && a.trait_ == term)
}

pub open spec fn az_views(s: Seq<AzAssociation>) -> Seq<AzAssocView> {
    s.map_values(|a: AzAssociation| a@)
}

/// One rendered secondary-dataset row.
pub struct AzRow {
    pub trait_: String,
    pub gene: String,
    pub p_value: String,
}

pub open spec fn az_row_ok(a: AzAssocView, row: &AzRow) -> bool {
    &&& row.trait_@ == a.trait_
    &&& row.gene@ == a.mapped_gene
    &&& row.p_value@ == sci_str(a.p_value)
}

pub open spec fn az_rows_match(res: Seq<AzAssocView>, rows: Seq<AzRow>) -> bool {
    rows.len() == res.len() && (forall|i: int| 0 <= i < res.len() ==> az_row_ok(res[i], &rows[i]))
}

/// The gene names of the surviving records, first occurrence kept.
pub open spec fn az_gene_union(res: Seq<AzAssocView>, n: int) -> Seq<Seq<char>>
    decreases n,
{
    if n <= 0 {
        Seq::empty()
    } else {
        let prev = az_gene_union(res, n - 1);
        if prev.contains(res[n - 1].mapped_gene) {
            prev
        } else {
            prev.push(res[n - 1].mapped_gene)
        }
    }
}

pub open spec fn az_gene_hit(res: Seq<AzAssocView>, g: Seq<char>) -> bool {
    exists|i: int| 0 <= i < res.len() && (#[trigger] res[i]).mapped_gene == g
}

pub enum AzQueryOutput {
    NoSignificant,
    Rows(Vec<AzRow>),
    Genes(Vec<String>),
    PerGene(Vec<AzGeneRows>),
    Partition { associated: Vec<String>, not_associated: Vec<String> },
}

pub struct AzGeneRows {
    pub gene: String,
    pub rows: Vec<AzRow>,
}

/// Evaluates a secondary-dataset query: filters to the significant records
/// whose trait name equals `term`, then shapes the result.
pub fn query_az(
    term: &String,
    genes: Vec<String>,
    associations: &Vec<AzAssociation>,
    with_associations: bool,
) -> (r: AzQueryOutput)
    requires
        forall|i: int| 0 <= i < associations@.len() ==> (#[trigger] associations@[i]).p_value.wf(),
    ensures
        ({
            let res = az_significant_for(az_views(associations@), term@);
            &&& (r is NoSignificant <==> res.len() == 0)
            &&& (r matches AzQueryOutput::Rows(rows) ==> genes@.len() == 0 && with_associations
                && az_rows_match(res, rows@))
            &&& (r matches AzQueryOutput::Genes(gs) ==> genes@.len() == 0 && !with_associations
                && gs.deep_view() == az_gene_union(res, res.len() as int))
            &&& (r matches AzQueryOutput::PerGene(pgs) ==> genes@.len() > 0 && with_associations
                && {
                &&& pgs@.len() == genes@.len()
                &&& forall|i: int|
                    0 <= i < pgs@.len() ==> (#[trigger] pgs@[i]).gene@ == genes.deep_view()[i]
                        && az_rows_match(
                        res.filter(|a: AzAssocView| a.mapped_gene == genes.deep_view()[i]),
                        pgs@[i].rows@,
                    )
            })
            &&& (r matches AzQueryOutput::Partition { associated, not_associated } ==> genes@.len()
                > 0 && !with_associations && associated.deep_view() == genes.deep_view().filter(
                |g: Seq<char>| az_gene_hit(res, g),
            ) && not_associated.deep_view() == genes.deep_view().filter(
                |g: Seq<char>| !az_gene_hit(res, g),
            ))
            &&& (res.len() > 0 ==> (if genes@.len() == 0 && with_associations {
                r is Rows
            } else if genes@.len() == 0 {
                r is Genes
            } else if with_associations {
                r is PerGene
            } else {
                r is Partition
            }))
        }),
{
    let ghost sv = az_views(associations@);
    let ghost res = az_significant_for(sv, term@);
    // filter to the significant records of this trait
    let mut results: Vec<AzAssociation> = Vec::new();
    let mut i: usize = 0;
    proof {
        reveal(Seq::filter);
        assert(sv.subrange(0, 0) =~= Seq::<AzAssocView>::empty());
        assert(az_views(results@) =~= sv.subrange(0, 0).filter(
            |a: AzAssocView| spec_lt(a.p_value, spec_threshold()) && a.trait_ == term@,
        ));
    }
    while i < associations.len()
        invariant
            0 <= i <= associations@.len(),
            sv == az_views(associations@),
            sv.len() == associations@.len(),
            forall|k: int|
                0 <= k < associations@.len() ==> (#[trigger] associations@[k]).p_value.wf(),
            forall|k: int| 0 <= k < results@.len() ==> (#[trigger] results@[k]).p_value.wf(),
            az_views(results@) =~= sv.subrange(0, i as int).filter(
                |a: AzAssocView| spec_lt(a.p_value, spec_threshold()) && a.trait_ == term@,
            ),
        decreases associations@.len() - i,
    {
        proof {
            reveal(Seq::filter);
            assert(sv[i as int] == associations@[i as int]@);
            assert(sv.subrange(0, i + 1).drop_last() =~= sv.subrange(0, i as int));
            assert(sv.subrange(0, i + 1).last() == sv[i as int]);
        }
        let a = &associations[i];
        if a.is_significant() && a.is_associated_with(term) {
            let ghost prev = az_views(results@);
            let t = a.trait_.clone();
            let g = a.mapped_gene.clone();
            let copy = AzAssociation { trait_: t, mapped_gene: g, p_value: a.p_value };
            results.push(copy);
            proof {
                assert(copy@ =~= sv[i as int]);
                assert(az_views(results@) =~= prev.push(sv[i as int]));
            }
        }
        i += 1;
    }
    proof {
        reveal(Seq::filter);
        assert(sv.subrange(0, sv.len() as int) =~= sv);
        assert(az_views(results@) =~= res);
        assert(res.len() == results@.len());
    }
    if results.len() == 0 {
        return AzQueryOutput::NoSignificant;
    }
    if genes.len() == 0 {
        if with_associations {
            let mut rows: Vec<AzRow> = Vec::new();
            let mut i2: usize = 0;
            while i2 < results.len()
                invariant
                    0 <= i2 <= results@.len(),
                    res == az_views(results@),
                    res.len() == results@.len(),
                    forall|k: int| 0 <= k < results@.len() ==> (#[trigger] results@[k]).p_value.wf(),
                    rows@.len() == i2,
                    forall|k: int| 0 <= k < i2 ==> az_row_ok(res[k], &rows@[k]),
                decreases results@.len() - i2,
            {
                proof {
                    assert(res[i2 as int] == results@[i2 as int]@);
                }
                let a = &results[i2];
                let row = AzRow {
                    trait_: a.trait_.clone(),
                    gene: a.mapped_gene.clone(),
                    p_value: to_sci(&a.p_value),
                };
                rows.push(row);
                i2 += 1;
            }
            return AzQueryOutput::Rows(rows);
        }
        let mut gs: Vec<String> = Vec::new();
        let mut i2: usize = 0;
        while i2 < results.len()
            invariant
                0 <= i2 <= results@.len(),
                res == az_views(results@),
                res.len() == results@.len(),
                gs.deep_view() =~= az_gene_union(res, i2 as int),
            decreases results@.len() - i2,
        {
            proof {
                assert(res[i2 as int] == results@[i2 as int]@);
            }
            let g = &results[i2].mapped_gene;
            let mut present = false;
            let mut q: usize = 0;
            while q < gs.len()
                invariant
                    0 <= q <= gs@.len(),
                    present <==> exists|w: int| 0 <= w < q && gs.deep_view()[w] == g@,
                decreases gs@.len() - q,
            {
                proof {
                    assert(gs.deep_view()[q as int] == gs@[q as int]@);
                }
                if gs[q] == *g {
                    present = true;
                }
                q += 1;
            }
            proof {
                assert(present <==> gs.deep_view().contains(g@));
            }
            if !present {
                let ghost prev = gs.deep_view();
                let copy = g.clone();
                gs.push(copy);
                proof {
                    assert(gs.deep_view() =~= prev.push(res[i2 as int].mapped_gene));
                }
            }
            i2 += 1;
        }
        return AzQueryOutput::Genes(gs);
    }
    if with_associations {
        let ghost gsv = genes.deep_view();
        let mut pgs: Vec<AzGeneRows> = Vec::new();
        let mut i2: usize = 0;
        while i2 < genes.len()
            invariant
                0 <= i2 <= genes@.len(),
                res == az_views(results@),
                res.len() == results@.len(),
                forall|k: int| 0 <= k < results@.len() ==> (#[trigger] results@[k]).p_value.wf(),
                gsv == genes.deep_view(),
                gsv.len() == genes@.len(),
                pgs@.len() == i2,
                forall|k: int|
                    0 <= k < i2 ==> (#[trigger] pgs@[k]).gene@ == gsv[k] && az_rows_match(
                        res.filter(|a: AzAssocView| a.mapped_gene == gsv[k]),
                        pgs@[k].rows@,
                    ),
            decreases genes@.len() - i2,
        {
            proof {
                assert(gsv[i2 as int] == genes@[i2 as int]@);
            }
            let g = &genes[i2];
            let mut rows: Vec<AzRow> = Vec::new();
            let mut k: usize = 0;
            proof {
                reveal(Seq::filter);
                assert(res.subrange(0, 0) =~= Seq::<AzAssocView>::empty());
            }
            while k < results.len()
                invariant
                    0 <= k <= results@.len(),
                    res == az_views(results@),
                    res.len() == results@.len(),
                    forall|w: int| 0 <= w < results@.len() ==> (#[trigger] results@[w]).p_value.wf(),
                    0 <= i2 < gsv.len(),
                    gsv == genes.deep_view(),
                    g == &genes[i2 as int],
                    g@ == gsv[i2 as int],
                    rows@.len() == res.subrange(0, k as int).filter(
                        |a: AzAssocView| a.mapped_gene == gsv[i2 as int],
                    ).len(),
                    az_rows_match(
                        res.subrange(0, k as int).filter(
                            |a: AzAssocView| a.mapped_gene == gsv[i2 as int],
                        ),
                        rows@,
                    ),
                decreases results@.len() - k,
            {
                proof {
                    reveal(Seq::filter);
                    assert(res[k as int] == results@[k as int]@);
                    assert(res.subrange(0, k + 1).drop_last() =~= res.subrange(0, k as int));
                    assert(res.subrange(0, k + 1).last() == res[k as int]);
                }
                let a = &results[k];
                if a.mapped_gene == *g {
                    let row = AzRow {
                        trait_: a.trait_.clone(),
                        gene: a.mapped_gene.clone(),
                        p_value: to_sci(&a.p_value),
                    };
                    rows.push(row);
                    proof {
                        let p = |a: AzAssocView| a.mapped_gene == gsv[i2 as int];
                        assert(res.subrange(0, k + 1).filter(p) =~= res.subrange(
                            0,
                            k as int,
                        ).filter(p).push(res[k as int]));
                    }
                }
                k += 1;
            }
            proof {
                reveal(Seq::filter);
                assert(res.subrange(0, res.len() as int) =~= res);
            }
            let copy = g.clone();
            pgs.push(AzGeneRows { gene: copy, rows });
            i2 += 1;
        }
        return AzQueryOutput::PerGene(pgs);
    }
    let ghost gsv = genes.deep_view();
    let mut associated: Vec<String> = Vec::new();
    let mut not_associated: Vec<String> = Vec::new();
    let mut i2: usize = 0;
    proof {
        reveal(Seq::filter);
        assert(gsv.subrange(0, 0) =~= Seq::<Seq<char>>::empty());
    }
    while i2 < genes.len()
        invariant
            0 <= i2 <= genes@.len(),
            res == az_views(results@),
            res.len() == results@.len(),
            gsv == genes.deep_view(),
            gsv.len() == genes@.len(),
            associated.deep_view() =~= gsv.subrange(0, i2 as int).filter(
                |g: Seq<char>| az_gene_hit(res, g),
            ),
            not_associated.deep_view() =~= gsv.subrange(0, i2 as int).filter(
                |g: Seq<char>| !az_gene_hit(res, g),
            ),
        decreases genes@.len() - i2,
    {
        proof {
            reveal(Seq::filter);
            assert(gsv[i2 as int] == genes@[i2 as int]@);
            assert(gsv.subrange(0, i2 + 1).drop_last() =~= gsv.subrange(0, i2 as int));
            assert(gsv.subrange(0, i2 + 1).last() == gsv[i2 as int]);
        }
        let g = &genes[i2];
        let mut hit = false;
        let mut k: usize = 0;
        while k < results.len()
            invariant
                0 <= k <= results@.len(),
                res == az_views(results@),
                res.len() == results@.len(),
                0 <= i2 < gsv.len(),
                gsv == genes.deep_view(),
                g == &genes[i2 as int],
                g@ == gsv[i2 as int],
                hit <==> exists|w: int|
                    0 <= w < k && (#[trigger] res[w]).mapped_gene == gsv[i2 as int],
            decreases results@.len() - k,
        {
            proof {
                assert(res[k as int] == results@[k as int]@);
            }
            if results[k].mapped_gene == *g {
                hit = true;
            }
            k += 1;
        }
        proof {
            assert(hit <==> az_gene_hit(res, gsv[i2 as int]));
        }
        let copy = g.clone();
        if hit {
            let ghost prev = associated.deep_view();
            associated.push(copy);
            proof {
                assert(associated.deep_view() =~= prev.push(gsv[i2 as int]));
            }
        } else {
            let ghost prev = not_associated.deep_view();
            not_associated.push(copy);
            proof {
                assert(not_associated.deep_view() =~= prev.push(gsv[i2 as int]));
            }
        }
        i2 += 1;
    }
    proof {
        reveal(Seq::filter);
        assert(gsv.subrange(0, gsv.len() as int) =~= gsv);
    }
    AzQueryOutput::Partition { associated, not_associated }
}

} // verus!
