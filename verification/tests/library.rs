use search_gwas::catalog::{process_catalog, get_header_position};
use search_gwas::codec::{
    encode_associations, decode_associations, encode_efos, decode_efos, encode_metadata,
    decode_metadata,
};
use search_gwas::data::{Association, AzAssociation, Efo, Metadata};
use search_gwas::errors::GwasError;
use search_gwas::files::{
    associations_path, associations_tsv_path, efo_path, efo_owl_path, metadata_path,
    get_global_dir, get_az_dir,
};
use search_gwas::ontology::process_ontology;
use search_gwas::pvalue::{PValue, parse_pvalue, pv_lt, threshold, to_sci};
use search_gwas::query::{
    parse_genes, find_efo, filter_significant, query, query_az, associations_wf, QueryOutput,
    AzQueryOutput,
};
use search_gwas::refresh::{
    plan_refresh, RefreshPlan, SourceAction, after_remote_check, parse_catalog_stamp,
    parse_http_date, Date, DateTime, date_lt, datetime_lt,
};
use search_gwas::text::{parse_u32, u64_to_string, lines, split_char};

fn pv(neg: bool, mantissa: u64, exp: i32) -> PValue {
    PValue { neg, mantissa, exp }
}

fn assoc(traits: Vec<u32>, p: PValue, genes: Vec<&str>, acc: u32, pubmed: u32) -> Association {
    Association {
        traits,
        p_value: p,
        mapped_gene: genes.into_iter().map(|g| g.to_string()).collect(),
        accession_id: acc,
        pubmed,
    }
}

// ---------------------------------------------------------------------------
// Exact decimal p-values.
// ---------------------------------------------------------------------------
#[test]
fn parse_simple_literals() {
    assert_eq!(parse_pvalue("5E-8"), Some(pv(false, 5, -8)));
    assert_eq!(parse_pvalue("4.9e-8"), Some(pv(false, 49, -9)));
    assert_eq!(parse_pvalue("0.05"), Some(pv(false, 5, -2)));
    assert_eq!(parse_pvalue("120"), Some(pv(false, 12, 1)));
    assert_eq!(parse_pvalue("-1.5e3"), Some(pv(true, 15, 2)));
    assert_eq!(parse_pvalue("0"), Some(pv(false, 0, 0)));
    assert_eq!(parse_pvalue("0.000e7"), Some(pv(false, 0, 0)));
    assert_eq!(parse_pvalue("+3."), Some(pv(false, 3, 0)));
    assert_eq!(parse_pvalue(".25"), Some(pv(false, 25, -2)));
}

#[test]
fn parse_rejects_malformed() {
    assert_eq!(parse_pvalue(""), None);
    assert_eq!(parse_pvalue("abc"), None);
    assert_eq!(parse_pvalue("1e"), None);
    assert_eq!(parse_pvalue("1e+"), None);
    assert_eq!(parse_pvalue("."), None);
    assert_eq!(parse_pvalue("1.2.3"), None);
    assert_eq!(parse_pvalue("1e99999999999"), None);
}

#[test]
fn threshold_boundary() {
    // at the threshold: excluded; just below: included
    let t = threshold();
    let at = parse_pvalue("5e-8").unwrap();
    let below = parse_pvalue("4.9e-8").unwrap();
    assert!(!pv_lt(&at, &t));
    assert!(pv_lt(&below, &t));
    let a_at = assoc(vec![10], at, vec!["BRCA1"], 1, 100);
    let a_below = assoc(vec![10], below, vec!["BRCA1"], 1, 100);
    assert!(!a_at.is_significant());
    assert!(a_below.is_significant());
}

#[test]
fn ordering_is_numeric() {
    let a = parse_pvalue("9.99e-9").unwrap();
    let b = parse_pvalue("1e-8").unwrap();
    assert!(pv_lt(&a, &b));
    assert!(!pv_lt(&b, &a));
    let neg = parse_pvalue("-1").unwrap();
    let zero = parse_pvalue("0").unwrap();
    assert!(pv_lt(&neg, &zero));
}

#[test]
fn scientific_rendering() {
    assert_eq!(to_sci(&pv(false, 5, -8)), "5e-8");
    assert_eq!(to_sci(&pv(false, 49, -9)), "4.9e-8");
    assert_eq!(to_sci(&pv(false, 0, 0)), "0e0");
    assert_eq!(to_sci(&pv(true, 15, 2)), "-1.5e3");
    assert_eq!(to_sci(&pv(false, 12, 1)), "1.2e2");
}

// ---------------------------------------------------------------------------
// Catalog ingestion.
// ---------------------------------------------------------------------------
const HEADER: &str = "MAPPED_TRAIT_URI\tP-VALUE\tMAPPED_GENE\tSTUDY ACCESSION\tLINK";

fn catalog_text(rows: &[&str]) -> String {
    let mut t = String::from(HEADER);
    for r in rows {
        t.push('\n');
        t.push_str(r);
    }
    t
}

#[test]
fn catalog_rows_normalize() {
    let text = catalog_text(&[
        "http://x/EFO_10, http://x/EFO_3\t1e-10\t brca1 \tGCST7\thttp://p/100",
        "http://x/EFO_10\t1e-3\tTP53\tGCST2\thttp://p/200",
    ]);
    let out = process_catalog(&text).unwrap();
    assert_eq!(out.len(), 2);
    // trait ids sorted ascending, genes trimmed and upper-cased
    assert_eq!(out[0].traits, vec![3, 10]);
    assert_eq!(out[0].mapped_gene, vec!["BRCA1".to_string()]);
    assert_eq!(out[0].accession_id, 7);
    assert_eq!(out[0].pubmed, 100);
    assert_eq!(out[1].traits, vec![10]);
}

#[test]
fn catalog_blank_gene_dropped() {
    let text = catalog_text(&[
        "http://x/EFO_10\t1e-10\t   \tGCST1\thttp://p/100",
        "http://x/EFO_11\t1e-10\tBRCA1\tGCST1\thttp://p/100",
    ]);
    let out = process_catalog(&text).unwrap();
    assert_eq!(out.len(), 1);
    assert_eq!(out[0].traits, vec![11]);
}

#[test]
fn catalog_duplicates_collapse() {
    let row = "http://x/EFO_10\t1e-10\tBRCA1\tGCST1\thttp://p/100";
    let text = catalog_text(&[row, row]);
    let out = process_catalog(&text).unwrap();
    assert_eq!(out.len(), 1);
}

#[test]
fn catalog_missing_column_fatal() {
    let text = "MAPPED_TRAIT_URI\tP-VALUE\tMAPPED_GENE\tSTUDY ACCESSION\n\
                http://x/EFO_10\t1e-10\tBRCA1\tGCST1";
    assert!(matches!(process_catalog(text), Err(GwasError::Parse)));
}

#[test]
fn catalog_bad_pvalue_fatal() {
    let text = catalog_text(&["http://x/EFO_10\tnope\tBRCA1\tGCST1\thttp://p/100"]);
    assert!(matches!(process_catalog(&text), Err(GwasError::Parse)));
}

#[test]
fn catalog_bad_trait_id_fatal() {
    let text = catalog_text(&["http://x/EFO_abc\t1e-10\tBRCA1\tGCST1\thttp://p/100"]);
    assert!(matches!(process_catalog(&text), Err(GwasError::Parse)));
}

#[test]
fn catalog_non_prefixed_traits_skipped() {
    let text = catalog_text(&["http://x/GO_5, http://x/EFO_9\t1e-10\tBRCA1\tGCST1\thttp://p/100"]);
    let out = process_catalog(&text).unwrap();
    assert_eq!(out[0].traits, vec![9]);
}

#[test]
fn header_position_found() {
    let headers: Vec<String> = HEADER.split('\t').map(|s| s.to_string()).collect();
    assert_eq!(get_header_position(&headers, "P-VALUE"), Some(1));
    assert_eq!(get_header_position(&headers, "LINK"), Some(4));
    assert_eq!(get_header_position(&headers, "MISSING"), None);
}

// ---------------------------------------------------------------------------
// Archival codec round trips.
// ---------------------------------------------------------------------------
#[test]
fn associations_round_trip() {
    let v = vec![
        assoc(vec![3, 10], pv(false, 1, -10), vec!["BRCA1"], 1, 100),
        assoc(vec![10], pv(false, 1, -3), vec!["TP53", "XRCC1"], 2, 200),
    ];
    let bytes = encode_associations(&v);
    let back = decode_associations(&bytes).unwrap();
    assert_eq!(back.len(), 2);
    assert_eq!(back[0].traits, v[0].traits);
    assert_eq!(back[0].p_value, v[0].p_value);
    assert_eq!(back[0].mapped_gene, v[0].mapped_gene);
    assert_eq!(back[1].accession_id, 2);
    assert_eq!(back[1].pubmed, 200);
}

#[test]
fn empty_collections_round_trip() {
    let bytes = encode_associations(&Vec::new());
    assert_eq!(decode_associations(&bytes).unwrap().len(), 0);
    let bytes = encode_efos(&Vec::new());
    assert_eq!(decode_efos(&bytes).unwrap().len(), 0);
}

#[test]
fn efos_round_trip() {
    let v = vec![Efo {
        id: 1,
        label: "CANCER".to_string(),
        parent: None,
        children: vec![2, 3],
        synonyms: vec!["NEOPLASM".to_string()],
    }, Efo {
        id: 2,
        label: "BREAST CANCER".to_string(),
        parent: Some(1),
        children: Vec::new(),
        synonyms: Vec::new(),
    }];
    let bytes = encode_efos(&v);
    let back = decode_efos(&bytes).unwrap();
    assert_eq!(back.len(), 2);
    assert_eq!(back[0].id, 1);
    assert_eq!(back[0].label, "CANCER");
    assert_eq!(back[0].children, vec![2, 3]);
    assert_eq!(back[0].synonyms, vec!["NEOPLASM".to_string()]);
    assert_eq!(back[1].parent, Some(1));
}

#[test]
fn metadata_round_trip() {
    let m = Metadata { last_updated: 1700000000 };
    assert_eq!(decode_metadata(&encode_metadata(&m)).unwrap(), m);
    let m = Metadata { last_updated: -5 };
    assert_eq!(decode_metadata(&encode_metadata(&m)).unwrap(), m);
}

#[test]
fn decode_version_mismatch() {
    let mut bytes = encode_associations(&Vec::new());
    bytes[0] = bytes[0].wrapping_add(1);
    assert!(matches!(decode_associations(&bytes), Err(GwasError::FormatMismatch)));
    assert!(matches!(decode_associations(&Vec::new()), Err(GwasError::FormatMismatch)));
}

#[test]
fn decode_truncated_is_parse_error() {
    let v = vec![assoc(vec![10], pv(false, 1, -10), vec!["BRCA1"], 1, 100)];
    let bytes = encode_associations(&v);
    let cut: Vec<u8> = bytes[..bytes.len() - 3].to_vec();
    assert!(matches!(decode_associations(&cut), Err(GwasError::Parse)));
}

// ---------------------------------------------------------------------------
// Ontology ingestion.
// ---------------------------------------------------------------------------
const OWL: &str = r#"<?xml version="1.0"?>
<rdf:RDF xmlns:rdf="http://www.w3.org/1999/02/22-rdf-syntax-ns#">
  <!-- a class hierarchy -->
  <owl:Class rdf:about="http://purl.obolibrary.org/obo/EFO_1">
    <rdfs:label>Cancer</rdfs:label>
  </owl:Class>
  <owl:Class rdf:about="http://purl.obolibrary.org/obo/EFO_2">
    <rdfs:label> breast cancer </rdfs:label>
    <rdfs:subClassOf rdf:resource="http://purl.obolibrary.org/obo/EFO_1"/>
    <oboInOwl:hasExactSynonym>mammary tumor</oboInOwl:hasExactSynonym>
    <oboInOwl:hasExactSynonym>mammary tumor</oboInOwl:hasExactSynonym>
  </owl:Class>
  <owl:Class rdf:about="http://purl.obolibrary.org/obo/EFO_3">
    <rdfs:label>other</rdfs:label>
    <rdfs:subClassOf rdf:resource="http://example.org/GO_9"/>
  </owl:Class>
</rdf:RDF>"#;

#[test]
fn ontology_extracts_and_backfills() {
    let efos = process_ontology(OWL).unwrap();
    assert_eq!(efos.len(), 3);
    let one = efos.iter().find(|e| e.id == 1).unwrap();
    let two = efos.iter().find(|e| e.id == 2).unwrap();
    let three = efos.iter().find(|e| e.id == 3).unwrap();
    assert_eq!(one.label, "CANCER");
    assert_eq!(one.parent, None);
    assert_eq!(two.label, "BREAST CANCER");
    assert_eq!(two.parent, Some(1));
    // synonym set semantics: the duplicate collapses
    assert_eq!(two.synonyms, vec!["MAMMARY TUMOR".to_string()]);
    // the backfill: the present parent holds the child's id
    assert!(one.children.contains(&2));
    // a reference without the ontology prefix becomes the sentinel id
    assert_eq!(three.parent, Some(0));
}

#[test]
fn ontology_nodes_without_label_skipped() {
    let text = r#"<root><owl:Class rdf:about="http://x/EFO_5"></owl:Class></root>"#;
    let efos = process_ontology(text).unwrap();
    assert_eq!(efos.len(), 0);
}

#[test]
fn ontology_bad_id_fatal() {
    let text =
        r#"<root><owl:Class rdf:about="http://x/EFO_zz"><rdfs:label>x</rdfs:label></owl:Class></root>"#;
    assert!(matches!(process_ontology(text), Err(GwasError::Parse)));
}

#[test]
fn ontology_malformed_markup_fatal() {
    assert!(matches!(process_ontology("<a><b></a></b>"), Err(GwasError::Parse)));
    assert!(matches!(process_ontology("<unclosed"), Err(GwasError::Parse)));
}

#[test]
fn ontology_duplicate_id_keeps_last() {
    let text = r#"<root>
      <owl:Class rdf:about="http://x/EFO_7"><rdfs:label>first</rdfs:label></owl:Class>
      <owl:Class rdf:about="http://x/EFO_7"><rdfs:label>second</rdfs:label></owl:Class>
    </root>"#;
    let efos = process_ontology(text).unwrap();
    assert_eq!(efos.len(), 1);
    assert_eq!(efos[0].label, "SECOND");
}

// ---------------------------------------------------------------------------
// Query engine.
// ---------------------------------------------------------------------------
fn sample_assocs() -> Vec<Association> {
    vec![
        assoc(vec![10], pv(false, 1, -10), vec!["BRCA1"], 1, 100),
        assoc(vec![10], pv(false, 1, -3), vec!["TP53"], 2, 200),
    ]
}

fn efo10() -> Efo {
    Efo {
        id: 10,
        label: "CANCER".to_string(),
        parent: None,
        children: Vec::new(),
        synonyms: Vec::new(),
    }
}

#[test]
fn query_gene_set() {
    // only the significant association survives; its gene set is reported
    let out = query(&efo10(), Vec::new(), &sample_assocs(), false, false);
    match out {
        QueryOutput::Genes(gs) => assert_eq!(gs, vec!["BRCA1".to_string()]),
        _ => panic!("expected the gene set"),
    }
}

#[test]
fn query_partition() {
    let genes = vec!["BRCA1".to_string(), "TP53".to_string()];
    let out = query(&efo10(), genes, &sample_assocs(), false, false);
    match out {
        QueryOutput::Partition { associated, not_associated } => {
            assert_eq!(associated, vec!["BRCA1".to_string()]);
            assert_eq!(not_associated, vec!["TP53".to_string()]);
        },
        _ => panic!("expected the partition"),
    }
}

#[test]
fn query_rows_rendering() {
    let out = query(&efo10(), Vec::new(), &sample_assocs(), true, false);
    match out {
        QueryOutput::Rows(rows) => {
            assert_eq!(rows.len(), 1);
            assert_eq!(rows[0].genes, "BRCA1");
            assert_eq!(rows[0].p_value, "1e-10");
            assert_eq!(rows[0].accession, "GCST1");
            assert_eq!(rows[0].pubmed, "100");
        },
        _ => panic!("expected rows"),
    }
}

#[test]
fn query_rows_with_links() {
    let out = query(&efo10(), Vec::new(), &sample_assocs(), true, true);
    match out {
        QueryOutput::Rows(rows) => {
            assert_eq!(rows[0].pubmed, "https://pubmed.ncbi.nlm.nih.gov/100");
        },
        _ => panic!("expected rows"),
    }
}

#[test]
fn query_no_significant() {
    let weak = vec![assoc(vec![10], pv(false, 1, -3), vec!["BRCA1"], 1, 100)];
    let out = query(&efo10(), Vec::new(), &weak, false, false);
    assert!(matches!(out, QueryOutput::NoSignificant));
    // an association of another trait does not count either
    let other = vec![assoc(vec![11], pv(false, 1, -10), vec!["BRCA1"], 1, 100)];
    let out = query(&efo10(), Vec::new(), &other, false, false);
    assert!(matches!(out, QueryOutput::NoSignificant));
}

#[test]
fn query_per_gene_rows() {
    let genes = vec!["BRCA1".to_string(), "TP53".to_string()];
    let out = query(&efo10(), genes, &sample_assocs(), true, false);
    match out {
        QueryOutput::PerGene(pgs) => {
            assert_eq!(pgs.len(), 2);
            assert_eq!(pgs[0].gene, "BRCA1");
            assert_eq!(pgs[0].rows.len(), 1);
            assert_eq!(pgs[1].gene, "TP53");
            assert_eq!(pgs[1].rows.len(), 0);
        },
        _ => panic!("expected per-gene rows"),
    }
}

#[test]
fn filter_boundary_scenario() {
    let at = assoc(vec![10], pv(false, 5, -8), vec!["A"], 1, 1);
    let below = assoc(vec![10], pv(false, 49, -9), vec!["B"], 2, 2);
    let kept = filter_significant(&vec![at, below], 10);
    assert_eq!(kept.len(), 1);
    assert_eq!(kept[0].mapped_gene, vec!["B".to_string()]);
}

#[test]
fn parse_genes_normalizes() {
    let input = vec![" brca1 , tp53".to_string(), "xrcc1".to_string()];
    let out = parse_genes(&input);
    assert_eq!(out, vec!["BRCA1".to_string(), "TP53".to_string(), "XRCC1".to_string()]);
}

#[test]
fn label_resolution() {
    let efos = vec![Efo {
        id: 1,
        label: "CANCER".to_string(),
        parent: None,
        children: Vec::new(),
        synonyms: Vec::new(),
    }, Efo {
        id: 2,
        label: "BREAST CANCER".to_string(),
        parent: Some(1),
        children: Vec::new(),
        synonyms: vec!["MAMMARY TUMOR".to_string()],
    }];
    // exact label match wins
    assert_eq!(find_efo(&efos, &"CANCER".to_string()), Some(0));
    // a synonym that is no primary label resolves to its node
    assert_eq!(find_efo(&efos, &"MAMMARY TUMOR".to_string()), Some(1));
    // a string matching neither yields nothing
    assert_eq!(find_efo(&efos, &"NOPE".to_string()), None);
}

#[test]
fn az_query_shapes() {
    let records = vec![AzAssociation {
        trait_: "height".to_string(),
        mapped_gene: "HMGA2".to_string(),
        p_value: pv(false, 1, -12),
    }, AzAssociation {
        trait_: "height".to_string(),
        mapped_gene: "GDF5".to_string(),
        p_value: pv(false, 2, -2),
    }, AzAssociation {
        trait_: "weight".to_string(),
        mapped_gene: "FTO".to_string(),
        p_value: pv(false, 1, -12),
    }];
    let out = query_az(&"height".to_string(), Vec::new(), &records, false);
    match out {
        AzQueryOutput::Genes(gs) => assert_eq!(gs, vec!["HMGA2".to_string()]),
        _ => panic!("expected the gene set"),
    }
    let out = query_az(
        &"height".to_string(),
        vec!["HMGA2".to_string(), "FTO".to_string()],
        &records,
        false,
    );
    match out {
        AzQueryOutput::Partition { associated, not_associated } => {
            assert_eq!(associated, vec!["HMGA2".to_string()]);
            assert_eq!(not_associated, vec!["FTO".to_string()]);
        },
        _ => panic!("expected the partition"),
    }
    let out = query_az(&"nope".to_string(), Vec::new(), &records, false);
    assert!(matches!(out, AzQueryOutput::NoSignificant));
}

// ---------------------------------------------------------------------------
// The staleness controller's decisions.
// ---------------------------------------------------------------------------
#[test]
fn refresh_short_circuit() {
    let meta = Some(Metadata { last_updated: 1000000 });
    // refreshed a minute ago: nothing to do
    let plan = plan_refresh(&meta, 1000060, 0, false, true, true);
    assert!(matches!(plan, RefreshPlan::UpToDate));
    // a force level overrides the window
    let plan = plan_refresh(&meta, 1000060, 1, false, true, true);
    assert!(matches!(plan, RefreshPlan::Proceed { .. }));
    // a stale snapshot proceeds
    let plan = plan_refresh(&meta, 1000000 + 90000, 0, false, true, true);
    assert!(matches!(plan, RefreshPlan::Proceed { .. }));
    // no metadata at all proceeds
    let plan = plan_refresh(&None, 0, 0, false, true, true);
    assert!(matches!(plan, RefreshPlan::Proceed { .. }));
}

#[test]
fn refresh_source_plans() {
    let meta = None;
    match plan_refresh(&meta, 0, 0, false, false, true) {
        RefreshPlan::Proceed { catalog, ontology } => {
            // missing archive: fresh download even without force
            assert_eq!(catalog, SourceAction::IngestFresh);
            assert_eq!(ontology, SourceAction::CheckRemote);
        },
        _ => panic!("expected a plan"),
    }
    match plan_refresh(&meta, 0, 2, true, true, false) {
        RefreshPlan::Proceed { catalog, ontology } => {
            // the local flag skips the remote check; a missing archive
            // still downloads fresh
            assert_eq!(catalog, SourceAction::IngestLocal);
            assert_eq!(ontology, SourceAction::IngestFresh);
        },
        _ => panic!("expected a plan"),
    }
    assert!(after_remote_check(true, 0));
    assert!(!after_remote_check(false, 0));
    assert!(after_remote_check(false, 2));
}

#[test]
fn freshness_signals_parse() {
    let d = parse_catalog_stamp("attachment; filename=gwas-catalog-associations_ontology-annotated_r2024-03-11.tsv");
    assert_eq!(d, Some(Date { year: 2024, month: 3, day: 11 }));
    assert_eq!(parse_catalog_stamp("no-date-here"), None);
    let t = parse_http_date("Tue, 15 Nov 1994 12:45:26 GMT");
    assert_eq!(
        t,
        Some(
            DateTime {
                date: Date { year: 1994, month: 11, day: 15 },
                hour: 12,
                minute: 45,
                second: 26,
            },
        ),
    );
    assert_eq!(parse_http_date("Tue, 15 Nov 1994 12:45:26 PST"), None);
    // the weekday token must be one of the seven short names
    assert_eq!(parse_http_date("Xyz, 15 Nov 1994 12:45:26 GMT"), None);
    assert_eq!(parse_http_date("garbage"), None);
}

#[test]
fn date_comparisons() {
    let a = Date { year: 2024, month: 3, day: 11 };
    let b = Date { year: 2024, month: 3, day: 12 };
    assert!(date_lt(&a, &b));
    assert!(!date_lt(&b, &a));
    assert!(!date_lt(&a, &a));
    let ta = DateTime { date: a, hour: 1, minute: 0, second: 0 };
    let tb = DateTime { date: a, hour: 1, minute: 0, second: 1 };
    assert!(datetime_lt(&ta, &tb));
    assert!(!datetime_lt(&tb, &ta));
}

// ---------------------------------------------------------------------------
// Paths and text utilities.
// ---------------------------------------------------------------------------
#[test]
fn cache_paths() {
    let dir = "/tmp/cache".to_string();
    assert_eq!(associations_path(&dir), "/tmp/cache/associations.bin");
    assert_eq!(associations_tsv_path(&dir), "/tmp/cache/associations.tsv");
    assert_eq!(efo_path(&dir), "/tmp/cache/efo.bin");
    assert_eq!(efo_owl_path(&dir), "/tmp/cache/efo.owl");
    assert_eq!(metadata_path(&dir), "/tmp/cache/metadata.bin");
    let data = "/home/u/.local/share/search-gwas".to_string();
    assert_eq!(get_global_dir(true, &data), "/usr/local/share/search-gwas");
    assert_eq!(get_global_dir(false, &data), data);
    assert_eq!(
        get_az_dir(&"/usr/local/share/search-gwas".to_string()),
        "/usr/local/share/search-gwas/az470k-proteomics",
    );
}

#[test]
fn snapshot_well_formedness() {
    // the shape the query's precondition asks for: trait ids strictly
    // ascending and a normalized p-value
    let good = vec![assoc(vec![3, 10], pv(false, 1, -10), vec!["BRCA1"], 1, 100)];
    assert!(associations_wf(&good));
    let unsorted = vec![assoc(vec![10, 3], pv(false, 1, -10), vec!["BRCA1"], 1, 100)];
    assert!(!associations_wf(&unsorted));
    let duplicate = vec![assoc(vec![10, 10], pv(false, 1, -10), vec!["BRCA1"], 1, 100)];
    assert!(!associations_wf(&duplicate));
    // a trailing zero digit in the mantissa is not normalized
    let denorm = vec![assoc(vec![10], pv(false, 50, -9), vec!["BRCA1"], 1, 100)];
    assert!(!associations_wf(&denorm));
    assert!(good[0].check_wf());
    assert!(!denorm[0].check_wf());
}

#[test]
fn text_utilities() {
    assert_eq!(parse_u32("123"), Some(123));
    assert_eq!(parse_u32(""), None);
    assert_eq!(parse_u32("12a"), None);
    assert_eq!(parse_u32("4294967295"), Some(u32::MAX));
    assert_eq!(parse_u32("4294967296"), None);
    assert_eq!(u64_to_string(0), "0");
    assert_eq!(u64_to_string(907), "907");
    let ls = lines("a\r\nb\nc\n");
    assert_eq!(ls, vec!["a".to_string(), "b".to_string(), "c".to_string()]);
    let ps = split_char("x,,y", ',');
    assert_eq!(ps, vec!["x".to_string(), "".to_string(), "y".to_string()]);
}
