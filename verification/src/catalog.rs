//! Catalog ingestion: the tab-separated catalog document is normalized
//! row by row into associations, which are then sorted by the canonical
//! key and deduplicated.
use vstd::prelude::*;
use crate::data::{Association, AssocView, strictly_sorted_u32s};
use crate::errors::GwasError;
use crate::order::{
    insert_assoc_unique, insert_trait_id, sorted_assocs, distinct_assocs, all_wf_assocs, views_of,
};
use crate::pvalue::{parse_pv, parse_pvalue};
use crate::text::{
    split_spec, split_char, lines, lines_of, find_str, find_string, parse_u32, all_digits,
    digits_value, trim, trim_of, to_upper, upper_of,
};

verus! {

// ---------------------------------------------------------------------------
// Per-field specs.
// ---------------------------------------------------------------------------
/// The last `sep`-separated segment of `s`.
pub open spec fn last_seg(s: Seq<char>, sep: char) -> Seq<char> {
    split_spec(s, sep).last()
}

/// Whether the segment carries the ontology-id prefix `EFO_`.
pub open spec fn is_efo_prefixed(seg: Seq<char>) -> bool {
    seg.len() >= 4 && seg[0] == 'E' && seg[1] == 'F' && seg[2] == 'O' && seg[3] == '_'
}

/// The numeric id a single trait URI contributes, if any.
pub open spec fn part_gives(part: Seq<char>, t: u32) -> bool {
    let seg = last_seg(part, '/');
    let d = last_seg(seg, '_');
    is_efo_prefixed(seg) && d.len() >= 1 && all_digits(d) && digits_value(d) <= u32::MAX
        && digits_value(d) == t
}

/// A prefixed trait URI whose id does not parse is fatal.
pub open spec fn part_fatal(part: Seq<char>) -> bool {
    let seg = last_seg(part, '/');
    let d = last_seg(seg, '_');
    is_efo_prefixed(seg) && !(d.len() >= 1 && all_digits(d) && digits_value(d) <= u32::MAX)
}

pub open spec fn traits_fatal(field: Seq<char>) -> bool {
    exists|k: int| 0 <= k < split_spec(field, ',').len() && part_fatal(split_spec(field, ',')[k])
}

/// The set of trait ids a trait-URI list field denotes.
pub open spec fn trait_set(field: Seq<char>) -> Set<u32> {
    Set::new(
        |t: u32|
            exists|k: int|
                0 <= k < split_spec(field, ',').len() && part_gives(split_spec(field, ',')[k], t),
    )
}

/// The accession id: a fixed-length prefix of four characters stripped,
/// the remainder read as a number.
pub open spec fn accession_of(field: Seq<char>) -> Option<u32> {
    if field.len() >= 4 {
        let d = field.subrange(4, field.len() as int);
        if d.len() >= 1 && all_digits(d) && digits_value(d) <= u32::MAX {
            Some(digits_value(d) as u32)
        } else {
            None
        }
    } else {
        None
    }
}

/// The bibliographic id: the final path segment of the link field.
pub open spec fn pubmed_of(field: Seq<char>) -> Option<u32> {
    let d = last_seg(field, '/');
    if d.len() >= 1 && all_digits(d) && digits_value(d) <= u32::MAX {
        Some(digits_value(d) as u32)
    } else {
        None
    }
}

// ---------------------------------------------------------------------------
// Per-row spec.
// ---------------------------------------------------------------------------
/// Column positions located in the header row.
pub struct Columns {
    pub disease: usize,
    pub p_value: usize,
    pub mapped_gene: usize,
    pub accession: usize,
    pub link: usize,
}

/// Whether processing this row aborts the whole run. Mirrors the
/// evaluation order: trait ids first, then the blank-gene drop, then the
/// remaining numeric fields.
pub open spec fn row_fatal(fields: Seq<Seq<char>>, c: Columns) -> bool {
    if c.disease >= fields.len() {
        true
    } else if traits_fatal(fields[c.disease as int]) {
        true
    } else if c.mapped_gene >= fields.len() {
        true
    } else if trim_of(fields[c.mapped_gene as int]).len() == 0 {
        false
    } else if c.p_value >= fields.len() || c.accession >= fields.len() || c.link >= fields.len() {
        true
    } else {
        parse_pv(fields[c.p_value as int]) is None || accession_of(fields[c.accession as int])
            is None || pubmed_of(fields[c.link as int]) is None
    }
}

/// The association a row emits: trait ids sorted ascending without
/// duplicates, the single trimmed upper-cased gene name, the exact
/// decimal p-value, and the two numeric ids.
pub open spec fn row_emits(fields: Seq<Seq<char>>, c: Columns, y: AssocView) -> bool {
    &&& !row_fatal(fields, c)
    &&& c.disease < fields.len()
    &&& c.mapped_gene < fields.len()
    &&& c.p_value < fields.len()
    &&& c.accession < fields.len()
    &&& c.link < fields.len()
    &&& trim_of(fields[c.mapped_gene as int]).len() > 0
    &&& strictly_sorted_u32s(y.traits)
    &&& (forall|t: u32| #[trigger] y.traits.contains(t) <==> trait_set(
        fields[c.disease as int],
    ).contains(t))
    &&& Some(y.p_value) == parse_pv(fields[c.p_value as int])
    &&& y.mapped_gene == seq![upper_of(trim_of(fields[c.mapped_gene as int]))]
    &&& Some(y.accession_id) == accession_of(fields[c.accession as int])
    &&& Some(y.pubmed) == pubmed_of(fields[c.link as int])
}

/// Two strictly sorted id lists with the same members are equal.
pub proof fn lemma_sorted_set_unique(a: Seq<u32>, b: Seq<u32>)
    requires
        strictly_sorted_u32s(a),
        strictly_sorted_u32s(b),
        forall|t: u32| a.contains(t) <==> b.contains(t),
    ensures
        a == b,
    decreases a.len(),
{
    if a.len() == 0 {
        if b.len() > 0 {
            assert(b.contains(b[0]));
            assert(a.contains(b[0]));
        }
        assert(a =~= b);
    } else {
        assert(a.contains(a[0]));
        assert(b.contains(a[0]));
        if b.len() == 0 {
            assert(b.contains(a[0]));
            assert(false);
        }
        assert(b.contains(b[0]));
        assert(a.contains(b[0]));
        // both heads are the minimum of the shared set
        let ia = choose|i: int| 0 <= i < a.len() && a[i] == b[0];
        let ib = choose|i: int| 0 <= i < b.len() && b[i] == a[0];
        assert(a[0] <= a[ia] && b[0] <= b[ib]);
        assert(a[0] == b[0]);
        let at = a.drop_first();
        let bt = b.drop_first();
        assert forall|t: u32| at.contains(t) <==> bt.contains(t) by {
            lemma_tail_contains(a, t);
            lemma_tail_contains(b, t);
        }
        lemma_sorted_set_unique(at, bt);
        assert(a =~= b) by {
            assert(a.len() == at.len() + 1 && b.len() == bt.len() + 1);
            assert forall|i: int| 0 <= i < a.len() implies a[i] == b[i] by {
                if i > 0 {
                    assert(at[i - 1] == bt[i - 1]);
                }
            }
        }
    }
}

/// For a strictly sorted list, membership in the tail is membership in the
/// whole minus the head.
proof fn lemma_tail_contains(a: Seq<u32>, t: u32)
    requires
        strictly_sorted_u32s(a),
        a.len() > 0,
    ensures
        a.drop_first().contains(t) <==> (a.contains(t) && t != a[0]),
{
    let at = a.drop_first();
    if at.contains(t) {
        let i = choose|i: int| 0 <= i < at.len() && at[i] == t;
        assert(a[i + 1] == t);
        assert(a[0] < a[i + 1]);
    }
    if a.contains(t) && t != a[0] {
        let i = choose|i: int| 0 <= i < a.len() && a[i] == t;
        assert(at[i - 1] == t);
    }
}

/// A row emits at most one association.
pub proof fn lemma_row_emits_unique(fields: Seq<Seq<char>>, c: Columns, y1: AssocView, y2: AssocView)
    requires
        row_emits(fields, c, y1),
        row_emits(fields, c, y2),
    ensures
        y1 == y2,
{
    lemma_sorted_set_unique(y1.traits, y2.traits);
    assert(y1 =~= y2);
}

// ---------------------------------------------------------------------------
// Executable per-field parsers.
// ---------------------------------------------------------------------------
/// Last `sep`-separated segment of `s`.
pub fn last_segment(s: &str, sep: char) -> (r: String)
    ensures
        r@ == last_seg(s@, sep),
{
    let mut parts = split_char(s, sep);
    let r = match parts.pop() {
        Some(x) => x,
        None => String::new(),
    };
    proof {
        assert(parts@.len() + 1 == split_spec(s@, sep).len());
    }
    r
}

pub fn is_efo_prefixed_exec(seg: &String) -> (r: bool)
    ensures
        r == is_efo_prefixed(seg@),
{
    let n = seg.as_str().unicode_len();
    if n < 4 {
        return false;
    }
    let s = seg.as_str();
    s.get_char(0) == 'E' && s.get_char(1) == 'F' && s.get_char(2) == 'O' && s.get_char(3) == '_'
}

/// Parses the trait-URI list field into a sorted duplicate-free id list.
pub fn parse_trait_field(field: &String) -> (r: Result<Vec<u32>, GwasError>)
    ensures
        r is Err <==> traits_fatal(field@),
        r matches Err(e) ==> e == GwasError::Parse,
        r matches Ok(v) ==> strictly_sorted_u32s(v@) && (forall|t: u32| #[trigger]
            v@.contains(t) <==> trait_set(field@).contains(t)),
{
    let parts = split_char(field.as_str(), ',');
    let ghost pv = split_spec(field@, ',');
    let mut out: Vec<u32> = Vec::new();
    let mut i: usize = 0;
    while i < parts.len()
        invariant
            0 <= i <= parts@.len(),
            pv == split_spec(field@, ','),
            parts.deep_view() == pv,
            parts@.len() == pv.len(),
            strictly_sorted_u32s(out@),
            forall|k: int| 0 <= k < i ==> !part_fatal(pv[k]),
            forall|t: u32| #[trigger]
                out@.contains(t) <==> exists|k: int| 0 <= k < i && part_gives(pv[k], t),
        decreases parts@.len() - i,
    {
        proof {
            assert(pv[i as int] == parts@[i as int]@);
        }
        let seg = last_segment(parts[i].as_str(), '/');
        if is_efo_prefixed_exec(&seg) {
            let d = last_segment(seg.as_str(), '_');
            match parse_u32(d.as_str()) {
                Some(t) => {
                    let ghost before = out@;
                    insert_trait_id(&mut out, t);
                    proof {
                        crate::text::lemma_digits_value_nonneg(d@);
                        assert(digits_value(d@) == t);
                        assert(part_gives(pv[i as int], t));
                        assert forall|u: u32| #[trigger]
                            out@.contains(u) <==> exists|k: int|
                                0 <= k < i + 1 && part_gives(pv[k], u) by {
                            if out@.contains(u) {
                                if before.contains(u) {
                                    let k = choose|k: int| 0 <= k < i && part_gives(pv[k], u);
                                    assert(part_gives(pv[k], u));
                                } else {
                                    assert(u == t);
                                }
                            }
                            if exists|k: int| 0 <= k < i + 1 && part_gives(pv[k], u) {
                                let k = choose|k: int| 0 <= k < i + 1 && part_gives(pv[k], u);
                                if k < i {
                                    assert(before.contains(u));
                                } else {
                                    // the same part pins the same id
                                    assert(u == t);
                                }
                            }
                        }
                    }
                },
                None => {
                    proof {
                        assert(is_efo_prefixed(seg@));
                        assert(seg@ == last_seg(pv[i as int], '/'));
                        assert(d@ == last_seg(seg@, '_'));
                        assert(part_fatal(pv[i as int]));
                        assert(pv == split_spec(field@, ','));
                        assert(0 <= i < split_spec(field@, ',').len());
                        assert(part_fatal(split_spec(field@, ',')[i as int]));
                        assert(traits_fatal(field@));
                    }
                    return Err(GwasError::Parse);
                },
            }
        } else {
            proof {
                assert(!part_fatal(pv[i as int]));
                assert(forall|t: u32| !part_gives(pv[i as int], t));
            }
        }
        i += 1;
    }
    proof {
        assert(!traits_fatal(field@));
        assert forall|t: u32| #[trigger] out@.contains(t) <==> trait_set(field@).contains(t) by {}
    }
    Ok(out)
}

/// Processes one data row. `Ok(None)` is the blank-gene drop; errors are
/// fatal for the whole ingestion.
pub fn process_row(fields: &Vec<String>, c: &Columns) -> (r: Result<
    Option<Association>,
    GwasError,
>)
    ensures
        r is Err <==> row_fatal(fields.deep_view(), *c),
        r matches Err(e) ==> e == GwasError::Parse,
        (r matches Ok(a) && a is None) ==> !row_fatal(fields.deep_view(), *c),
        r matches Ok(oa) ==> (forall|y: AssocView| #[trigger]
            row_emits(fields.deep_view(), *c, y) <==> (oa matches Some(a) && y == a@)),
        r matches Ok(oa) ==> (oa matches Some(a) ==> a.wf()),
{
    let ghost fv = fields.deep_view();
    if c.disease >= fields.len() {
        return Err(GwasError::Parse);
    }
    proof {
        assert(fv[c.disease as int] == fields@[c.disease as int]@);
    }
    let traits = match parse_trait_field(&fields[c.disease]) {
        Ok(v) => v,
        Err(e) => {
            return Err(e);
        },
    };
    if c.mapped_gene >= fields.len() {
        return Err(GwasError::Parse);
    }
    proof {
        assert(fv[c.mapped_gene as int] == fields@[c.mapped_gene as int]@);
    }
    let gene_trimmed = trim(fields[c.mapped_gene].as_str());
    if gene_trimmed.as_str().is_empty() {
        proof {
            assert(!row_fatal(fv, *c));
            assert(forall|y: AssocView| !row_emits(fv, *c, y));
        }
        return Ok(None);
    }
    if c.p_value >= fields.len() || c.accession >= fields.len() || c.link >= fields.len() {
        return Err(GwasError::Parse);
    }
    proof {
        assert(fv[c.p_value as int] == fields@[c.p_value as int]@);
        assert(fv[c.accession as int] == fields@[c.accession as int]@);
        assert(fv[c.link as int] == fields@[c.link as int]@);
    }
    let p = match parse_pvalue(fields[c.p_value].as_str()) {
        Some(p) => p,
        None => {
            return Err(GwasError::Parse);
        },
    };
    let acc_field = &fields[c.accession];
    let acc_len = acc_field.as_str().unicode_len();
    if acc_len < 4 {
        return Err(GwasError::Parse);
    }
    let acc_digits = acc_field.as_str().substring_char(4, acc_len);
    let accession_id = match parse_u32(acc_digits) {
        Some(v) => v,
        None => {
            return Err(GwasError::Parse);
        },
    };
    let link_seg = last_segment(fields[c.link].as_str(), '/');
    let pubmed = match parse_u32(link_seg.as_str()) {
        Some(v) => v,
        None => {
            return Err(GwasError::Parse);
        },
    };
    let gene = to_upper(gene_trimmed.as_str());
    let mut mapped_gene: Vec<String> = Vec::new();
    mapped_gene.push(gene);
    let a = Association { traits, p_value: p, mapped_gene, accession_id, pubmed };
    proof {
        assert(a@.mapped_gene =~= seq![upper_of(trim_of(fv[c.mapped_gene as int]))]);
        assert(row_emits(fv, *c, a@));
        assert forall|y: AssocView| #[trigger] row_emits(fv, *c, y) implies y == a@ by {
            lemma_row_emits_unique(fv, *c, y, a@);
        }
    }
    Ok(Some(a))
}

/// What every emitted association looks like: the trait-id list strictly
/// ascending, exactly one gene name (trivially sorted), and never from a
/// row whose gene field is blank.
pub proof fn lemma_row_emission_shape(fields: Seq<Seq<char>>, c: Columns, y: AssocView)
    requires
        row_emits(fields, c, y),
    ensures
        strictly_sorted_u32s(y.traits),
        y.mapped_gene.len() == 1,
        trim_of(fields[c.mapped_gene as int]).len() > 0,
{
}

/// A row with a blank gene field emits no association at all.
pub proof fn lemma_blank_gene_emits_nothing(fields: Seq<Seq<char>>, c: Columns, y: AssocView)
    requires
        c.mapped_gene < fields.len(),
        trim_of(fields[c.mapped_gene as int]).len() == 0,
    ensures
        !row_emits(fields, c, y),
{
}

/// Position of a column in the header row, by exact name.
pub fn get_header_position(headers: &Vec<String>, header: &str) -> (r: Option<usize>)
    ensures
        ({
            let fi = find_str(headers.deep_view(), header@);
            match r {
                Some(i) => fi == i && i < headers@.len(),
                None => fi == headers@.len(),
            }
        }),
{
    let i = find_string(headers, header);
    proof {
        crate::text::lemma_find_str_range(headers.deep_view(), header@);
        assert(headers.deep_view().len() == headers@.len());
    }
    if i < headers.len() {
        Some(i)
    } else {
        None
    }
}

// ---------------------------------------------------------------------------
// The whole pipeline.
// ---------------------------------------------------------------------------
/// The header columns of the catalog document, by name.
pub open spec fn spec_columns(hs: Seq<Seq<char>>) -> Columns {
    Columns {
        disease: find_str(hs, "MAPPED_TRAIT_URI"@) as usize,
        p_value: find_str(hs, "P-VALUE"@) as usize,
        mapped_gene: find_str(hs, "MAPPED_GENE"@) as usize,
        accession: find_str(hs, "STUDY ACCESSION"@) as usize,
        link: find_str(hs, "LINK"@) as usize,
    }
}

pub open spec fn header_fields(s: Seq<char>) -> Seq<Seq<char>> {
    split_spec(lines_of(s)[0], '\t')
}

pub open spec fn headers_ok(s: Seq<char>) -> bool {
    let hs = header_fields(s);
    let c = spec_columns(hs);
    &&& lines_of(s).len() > 0
    &&& c.disease < hs.len()
    &&& c.p_value < hs.len()
    &&& c.mapped_gene < hs.len()
    &&& c.accession < hs.len()
    &&& c.link < hs.len()
}

/// Whether ingestion of the whole document fails.
pub open spec fn catalog_fatal(s: Seq<char>) -> bool {
    !headers_ok(s) || exists|i: int|
        1 <= i < lines_of(s).len() && row_fatal(
            split_spec(lines_of(s)[i], '\t'),
            spec_columns(header_fields(s)),
        )
}

/// The associations the document's rows emit.
pub open spec fn catalog_emits(s: Seq<char>, y: AssocView) -> bool {
    exists|i: int|
        1 <= i < lines_of(s).len() && row_emits(
            split_spec(lines_of(s)[i], '\t'),
            spec_columns(header_fields(s)),
            y,
        )
}

/// Ingests the raw catalog document: locates the required columns,
/// normalizes every row, sorts the result by the canonical key and removes
/// exact duplicates. Fails exactly when a required column is missing or
/// some row is malformed.
pub fn process_catalog(text: &str) -> (r: Result<Vec<Association>, GwasError>)
    ensures
        r is Err <==> catalog_fatal(text@),
        r matches Err(e) ==> e == GwasError::Parse,
        r matches Ok(v) ==> sorted_assocs(v@) && distinct_assocs(v@) && all_wf_assocs(v@) && (
        forall|y: AssocView| #[trigger] views_of(v@).contains(y) <==> catalog_emits(text@, y)),
{
    let ls = lines(text);
    let ghost lv = lines_of(text@);
    if ls.len() == 0 {
        return Err(GwasError::Parse);
    }
    proof {
        assert(lv[0] == ls@[0]@);
    }
    let headers = split_char(ls[0].as_str(), '\t');
    let ghost hs = header_fields(text@);
    let disease = find_string(&headers, "MAPPED_TRAIT_URI");
    let p_value = find_string(&headers, "P-VALUE");
    let mapped_gene = find_string(&headers, "MAPPED_GENE");
    let accession = find_string(&headers, "STUDY ACCESSION");
    let link = find_string(&headers, "LINK");
    let hn = headers.len();
    if disease >= hn || p_value >= hn || mapped_gene >= hn || accession >= hn || link >= hn {
        return Err(GwasError::Parse);
    }
    let c = Columns { disease, p_value, mapped_gene, accession, link };
    proof {
        assert(c == spec_columns(hs));
        assert(headers_ok(text@));
    }
    let mut out: Vec<Association> = Vec::new();
    let mut i: usize = 1;
    while i < ls.len()
        invariant
            1 <= i <= ls@.len(),
            lv == lines_of(text@),
            ls.deep_view() == lv,
            ls@.len() == lv.len(),
            c == spec_columns(header_fields(text@)),
            headers_ok(text@),
            sorted_assocs(out@),
            distinct_assocs(out@),
            all_wf_assocs(out@),
            forall|k: int|
                1 <= k < i ==> !row_fatal(split_spec(lv[k], '\t'), spec_columns(
                    header_fields(text@),
                )),
            forall|y: AssocView| #[trigger]
                views_of(out@).contains(y) <==> exists|k: int|
                    1 <= k < i && row_emits(split_spec(lv[k], '\t'), spec_columns(
                        header_fields(text@),
                    ), y),
        decreases ls@.len() - i,
    {
        proof {
            assert(lv[i as int] == ls@[i as int]@);
        }
        let fields = split_char(ls[i].as_str(), '\t');
        let row = match process_row(&fields, &c) {
            Ok(x) => x,
            Err(e) => {
                return Err(e);
            },
        };
        match row {
            Some(a) => {
                let ghost before = out@;
                let ghost av = a@;
                proof {
                    assert(row_emits(split_spec(lv[i as int], '\t'), c, av));
                }
                insert_assoc_unique(&mut out, a);
                proof {
                    assert forall|y: AssocView| #[trigger]
                        views_of(out@).contains(y) <==> exists|k: int|
                            1 <= k < i + 1 && row_emits(split_spec(lv[k], '\t'), spec_columns(
                                header_fields(text@),
                            ), y) by {
                        if views_of(out@).contains(y) {
                            if y == av {
                                assert(row_emits(split_spec(lv[i as int], '\t'), spec_columns(
                                    header_fields(text@),
                                ), y));
                            } else {
                                assert(views_of(before).contains(y));
                                let k = choose|k: int|
                                    1 <= k < i && row_emits(split_spec(lv[k], '\t'), spec_columns(
                                        header_fields(text@),
                                    ), y);
                                assert(row_emits(split_spec(lv[k], '\t'), spec_columns(
                                    header_fields(text@),
                                ), y));
                            }
                        }
                        if exists|k: int|
                            1 <= k < i + 1 && row_emits(split_spec(lv[k], '\t'), spec_columns(
                                header_fields(text@),
                            ), y) {
                            let k = choose|k: int|
                                1 <= k < i + 1 && row_emits(split_spec(lv[k], '\t'), spec_columns(
                                    header_fields(text@),
                                ), y);
                            if k < i {
                                assert(views_of(before).contains(y));
                            } else {
                                assert(y == av);
                            }
                        }
                    }
                }
            },
            None => {
                proof {
                    assert(forall|y: AssocView|
                        !row_emits(split_spec(lv[i as int], '\t'), spec_columns(
                            header_fields(text@),
                        ), y));
                    assert forall|y: AssocView| #[trigger]
                        views_of(out@).contains(y) <==> exists|k: int|
                            1 <= k < i + 1 && row_emits(split_spec(lv[k], '\t'), spec_columns(
                                header_fields(text@),
                            ), y) by {
                        if exists|k: int|
                            1 <= k < i + 1 && row_emits(split_spec(lv[k], '\t'), spec_columns(
                                header_fields(text@),
                            ), y) {
                            let k = choose|k: int|
                                1 <= k < i + 1 && row_emits(split_spec(lv[k], '\t'), spec_columns(
                                    header_fields(text@),
                                ), y);
                            assert(k < i);
                        }
                    }
                }
            },
        }
        i += 1;
    }
    proof {
        assert(!catalog_fatal(text@));
        assert forall|y: AssocView| #[trigger]
            views_of(out@).contains(y) <==> catalog_emits(text@, y) by {}
    }
    Ok(out)
}

} // verus!
