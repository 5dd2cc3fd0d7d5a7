//! The total order on associations: lexicographic over trait ids, p-value,
//! gene names, accession id and bibliographic id, exactly the key the
//! catalog post-pass sorts and deduplicates by.
use vstd::prelude::*;
use crate::data::{Association, AssocView, strictly_sorted_u32s};
use crate::pvalue::{
    PValue, spec_lt, lemma_lt_trans, lemma_lt_connected, lemma_lt_connected_self, pv_lt, pv_cmp,
};

verus! {

// ---------------------------------------------------------------------------
// Three-way comparison specs: negative, zero, positive.
// ---------------------------------------------------------------------------
pub open spec fn spec_cmp_u32s(a: Seq<u32>, b: Seq<u32>) -> int
    decreases a.len(),
{
    if a.len() == 0 && b.len() == 0 {
        0
    } else if a.len() == 0 {
        -1
    } else if b.len() == 0 {
        1
    } else if a[0] < b[0] {
        -1
    } else if a[0] > b[0] {
        1
    } else {
        spec_cmp_u32s(a.drop_first(), b.drop_first())
    }
}

pub open spec fn spec_cmp_chars(a: Seq<char>, b: Seq<char>) -> int
    decreases a.len(),
{
    if a.len() == 0 && b.len() == 0 {
        0
    } else if a.len() == 0 {
        -1
    } else if b.len() == 0 {
        1
    } else if (a[0] as int) < (b[0] as int) {
        -1
    } else if (a[0] as int) > (b[0] as int) {
        1
    } else {
        spec_cmp_chars(a.drop_first(), b.drop_first())
    }
}

pub open spec fn spec_cmp_strs(a: Seq<Seq<char>>, b: Seq<Seq<char>>) -> int
    decreases a.len(),
{
    if a.len() == 0 && b.len() == 0 {
        0
    } else if a.len() == 0 {
        -1
    } else if b.len() == 0 {
        1
    } else {
        let h = spec_cmp_chars(a[0], b[0]);
        if h != 0 {
            h
        } else {
            spec_cmp_strs(a.drop_first(), b.drop_first())
        }
    }
}

pub open spec fn spec_cmp_pv(a: PValue, b: PValue) -> int {
    if spec_lt(a, b) {
        -1
    } else if a == b {
        0
    } else {
        1
    }
}

pub open spec fn spec_cmp_assoc(a: AssocView, b: AssocView) -> int {
    let c1 = spec_cmp_u32s(a.traits, b.traits);
    if c1 != 0 {
        c1
    } else {
        let c2 = spec_cmp_pv(a.p_value, b.p_value);
        if c2 != 0 {
            c2
        } else {
            let c3 = spec_cmp_strs(a.mapped_gene, b.mapped_gene);
            if c3 != 0 {
                c3
            } else if a.accession_id < b.accession_id {
                -1
            } else if a.accession_id > b.accession_id {
                1
            } else if a.pubmed < b.pubmed {
                -1
            } else if a.pubmed > b.pubmed {
                1
            } else {
                0
            }
        }
    }
}

pub open spec fn spec_le_assoc(a: AssocView, b: AssocView) -> bool {
    spec_cmp_assoc(a, b) <= 0
}

// ---------------------------------------------------------------------------
// Order lemmas: range, antisymmetry, equality at zero, transitivity.
// ---------------------------------------------------------------------------
pub proof fn lemma_cmp_u32s_props(a: Seq<u32>, b: Seq<u32>)
    ensures
        -1 <= spec_cmp_u32s(a, b) <= 1,
        spec_cmp_u32s(a, b) == -spec_cmp_u32s(b, a),
        spec_cmp_u32s(a, b) == 0 ==> a == b,
    decreases a.len(),
{
    if a.len() > 0 && b.len() > 0 && a[0] == b[0] {
        lemma_cmp_u32s_props(a.drop_first(), b.drop_first());
        if spec_cmp_u32s(a, b) == 0 {
            assert forall|i: int| 0 <= i < a.len() implies a[i] == b[i] by {
                if i > 0 {
                    assert(a.drop_first()[i - 1] == b.drop_first()[i - 1]);
                }
            }
            assert(a =~= b);
        }
    }
}

pub proof fn lemma_cmp_u32s_trans(a: Seq<u32>, b: Seq<u32>, c: Seq<u32>)
    requires
        spec_cmp_u32s(a, b) <= 0,
        spec_cmp_u32s(b, c) <= 0,
    ensures
        spec_cmp_u32s(a, c) <= 0,
    decreases a.len(),
{
    if a.len() > 0 {
        if a[0] == c[0] {
            lemma_cmp_u32s_trans(a.drop_first(), b.drop_first(), c.drop_first());
        }
    }
}

pub proof fn lemma_cmp_chars_props(a: Seq<char>, b: Seq<char>)
    ensures
        -1 <= spec_cmp_chars(a, b) <= 1,
        spec_cmp_chars(a, b) == -spec_cmp_chars(b, a),
        spec_cmp_chars(a, b) == 0 ==> a == b,
    decreases a.len(),
{
    if a.len() > 0 && b.len() > 0 && a[0] == b[0] {
        lemma_cmp_chars_props(a.drop_first(), b.drop_first());
        if spec_cmp_chars(a, b) == 0 {
            assert forall|i: int| 0 <= i < a.len() implies a[i] == b[i] by {
                if i > 0 {
                    assert(a.drop_first()[i - 1] == b.drop_first()[i - 1]);
                }
            }
            assert(a =~= b);
        }
    }
}

pub proof fn lemma_cmp_chars_trans(a: Seq<char>, b: Seq<char>, c: Seq<char>)
    requires
        spec_cmp_chars(a, b) <= 0,
        spec_cmp_chars(b, c) <= 0,
    ensures
        spec_cmp_chars(a, c) <= 0,
    decreases a.len(),
{
    if a.len() > 0 {
        if c.len() > 0 && (a[0] as int) == (c[0] as int) {
            lemma_cmp_chars_trans(a.drop_first(), b.drop_first(), c.drop_first());
        }
    }
}

pub proof fn lemma_cmp_strs_props(a: Seq<Seq<char>>, b: Seq<Seq<char>>)
    ensures
        -1 <= spec_cmp_strs(a, b) <= 1,
        spec_cmp_strs(a, b) == -spec_cmp_strs(b, a),
        spec_cmp_strs(a, b) == 0 ==> a == b,
    decreases a.len(),
{
    if a.len() > 0 && b.len() > 0 {
        lemma_cmp_chars_props(a[0], b[0]);
        if spec_cmp_chars(a[0], b[0]) == 0 {
            lemma_cmp_strs_props(a.drop_first(), b.drop_first());
            if spec_cmp_strs(a, b) == 0 {
                assert forall|i: int| 0 <= i < a.len() implies a[i] == b[i] by {
                    if i > 0 {
                        assert(a.drop_first()[i - 1] == b.drop_first()[i - 1]);
                    }
                }
                assert(a =~= b);
            }
        }
    }
}

pub proof fn lemma_cmp_strs_trans(a: Seq<Seq<char>>, b: Seq<Seq<char>>, c: Seq<Seq<char>>)
    requires
        spec_cmp_strs(a, b) <= 0,
        spec_cmp_strs(b, c) <= 0,
    ensures
        spec_cmp_strs(a, c) <= 0,
    decreases a.len(),
{
    if a.len() > 0 {
        // b and c are nonempty, else the hypotheses fail
        let hab = spec_cmp_chars(a[0], b[0]);
        let hbc = spec_cmp_chars(b[0], c[0]);
        lemma_cmp_chars_props(a[0], b[0]);
        lemma_cmp_chars_props(b[0], c[0]);
        lemma_cmp_chars_trans(a[0], b[0], c[0]);
        lemma_cmp_chars_props(a[0], c[0]);
        if spec_cmp_chars(a[0], c[0]) == 0 {
            assert(a[0] == c[0]);
            assert(hbc == -hab);
            lemma_cmp_strs_trans(a.drop_first(), b.drop_first(), c.drop_first());
        }
    }
}

pub proof fn lemma_cmp_pv_props(a: PValue, b: PValue)
    requires
        a.wf(),
        b.wf(),
    ensures
        -1 <= spec_cmp_pv(a, b) <= 1,
        spec_cmp_pv(a, b) == -spec_cmp_pv(b, a),
        spec_cmp_pv(a, b) == 0 ==> a == b,
{
    lemma_lt_connected_self(a);
    lemma_lt_connected_self(b);
    if a != b {
        lemma_lt_connected(a, b);
    }
    if spec_lt(a, b) && spec_lt(b, a) {
        lemma_lt_trans(a, b, a);
    }
}

pub proof fn lemma_cmp_pv_trans(a: PValue, b: PValue, c: PValue)
    requires
        a.wf(),
        b.wf(),
        c.wf(),
        spec_cmp_pv(a, b) <= 0,
        spec_cmp_pv(b, c) <= 0,
    ensures
        spec_cmp_pv(a, c) <= 0,
{
    lemma_cmp_pv_props(a, b);
    lemma_cmp_pv_props(b, c);
    lemma_cmp_pv_props(a, c);
    if spec_lt(a, b) && spec_lt(b, c) {
        lemma_lt_trans(a, b, c);
    }
}

pub proof fn lemma_cmp_assoc_props(a: AssocView, b: AssocView)
    requires
        a.p_value.wf(),
        b.p_value.wf(),
    ensures
        -1 <= spec_cmp_assoc(a, b) <= 1,
        spec_cmp_assoc(a, b) == -spec_cmp_assoc(b, a),
        spec_cmp_assoc(a, b) == 0 ==> a == b,
{
    lemma_cmp_u32s_props(a.traits, b.traits);
    lemma_cmp_pv_props(a.p_value, b.p_value);
    lemma_cmp_strs_props(a.mapped_gene, b.mapped_gene);
    if spec_cmp_assoc(a, b) == 0 {
        assert(a =~= b);
    }
}

pub proof fn lemma_cmp_assoc_trans(a: AssocView, b: AssocView, c: AssocView)
    requires
        a.p_value.wf(),
        b.p_value.wf(),
        c.p_value.wf(),
        spec_le_assoc(a, b),
        spec_le_assoc(b, c),
    ensures
        spec_le_assoc(a, c),
{
    let t_ab = spec_cmp_u32s(a.traits, b.traits);
    let t_bc = spec_cmp_u32s(b.traits, c.traits);
    lemma_cmp_u32s_props(a.traits, b.traits);
    lemma_cmp_u32s_props(b.traits, c.traits);
    lemma_cmp_u32s_props(a.traits, c.traits);
    lemma_cmp_u32s_trans(a.traits, b.traits, c.traits);
    if spec_cmp_u32s(a.traits, c.traits) == 0 {
        assert(a.traits == c.traits);
        assert(t_bc == -t_ab);
        if t_ab == 0 {
            // traits all equal; move to the p-value key
            let p_ab = spec_cmp_pv(a.p_value, b.p_value);
            let p_bc = spec_cmp_pv(b.p_value, c.p_value);
            lemma_cmp_pv_props(a.p_value, b.p_value);
            lemma_cmp_pv_props(b.p_value, c.p_value);
            lemma_cmp_pv_props(a.p_value, c.p_value);
            lemma_cmp_pv_trans(a.p_value, b.p_value, c.p_value);
            if spec_cmp_pv(a.p_value, c.p_value) == 0 {
                assert(a.p_value == c.p_value);
                assert(p_bc == -p_ab);
                if p_ab == 0 {
                    let g_ab = spec_cmp_strs(a.mapped_gene, b.mapped_gene);
                    let g_bc = spec_cmp_strs(b.mapped_gene, c.mapped_gene);
                    lemma_cmp_strs_props(a.mapped_gene, b.mapped_gene);
                    lemma_cmp_strs_props(b.mapped_gene, c.mapped_gene);
                    lemma_cmp_strs_props(a.mapped_gene, c.mapped_gene);
                    lemma_cmp_strs_trans(a.mapped_gene, b.mapped_gene, c.mapped_gene);
                    if spec_cmp_strs(a.mapped_gene, c.mapped_gene) == 0 {
                        assert(a.mapped_gene == c.mapped_gene);
                        assert(g_bc == -g_ab);
                    }
                }
            }
        }
    }
}

// ---------------------------------------------------------------------------
// Executable comparators.
// ---------------------------------------------------------------------------
pub fn cmp_u32s(a: &Vec<u32>, b: &Vec<u32>) -> (r: i8)
    ensures
        r as int == spec_cmp_u32s(a@, b@),
{
    let mut i: usize = 0;
    proof {
        assert(a@.skip(0) =~= a@);
        assert(b@.skip(0) =~= b@);
    }
    loop
        invariant
            0 <= i <= a@.len(),
            i <= b@.len(),
            spec_cmp_u32s(a@, b@) == spec_cmp_u32s(a@.skip(i as int), b@.skip(i as int)),
        decreases a@.len() - i,
    {
        proof {
            if i < a@.len() {
                assert(a@.skip(i as int).drop_first() =~= a@.skip(i + 1));
            }
            if i < b@.len() {
                assert(b@.skip(i as int).drop_first() =~= b@.skip(i + 1));
            }
        }
        if i == a.len() && i == b.len() {
            return 0;
        }
        if i == a.len() {
            return -1;
        }
        if i == b.len() {
            return 1;
        }
        let x = a[i];
        let y = b[i];
        if x < y {
            return -1;
        }
        if x > y {
            return 1;
        }
        i += 1;
    }
}

pub fn cmp_str(a: &String, b: &String) -> (r: i8)
    ensures
        r as int == spec_cmp_chars(a@, b@),
{
    let an = a.as_str().unicode_len();
    let bn = b.as_str().unicode_len();
    let mut i: usize = 0;
    proof {
        assert(a@.skip(0) =~= a@);
        assert(b@.skip(0) =~= b@);
    }
    loop
        invariant
            0 <= i <= an,
            i <= bn,
            an == a@.len(),
            bn == b@.len(),
            spec_cmp_chars(a@, b@) == spec_cmp_chars(a@.skip(i as int), b@.skip(i as int)),
        decreases an - i,
    {
        proof {
            if i < an {
                assert(a@.skip(i as int).drop_first() =~= a@.skip(i + 1));
            }
            if i < bn {
                assert(b@.skip(i as int).drop_first() =~= b@.skip(i + 1));
            }
        }
        if i == an && i == bn {
            return 0;
        }
        if i == an {
            return -1;
        }
        if i == bn {
            return 1;
        }
        let x = a.as_str().get_char(i) as u32;
        let y = b.as_str().get_char(i) as u32;
        if x < y {
            return -1;
        }
        if x > y {
            return 1;
        }
        i += 1;
    }
}

pub fn cmp_strs(a: &Vec<String>, b: &Vec<String>) -> (r: i8)
    ensures
        r as int == spec_cmp_strs(a.deep_view(), b.deep_view()),
{
    let mut i: usize = 0;
    proof {
        assert(a.deep_view().skip(0) =~= a.deep_view());
        assert(b.deep_view().skip(0) =~= b.deep_view());
    }
    loop
        invariant
            0 <= i <= a@.len(),
            i <= b@.len(),
            a.deep_view().len() == a@.len(),
            b.deep_view().len() == b@.len(),
            spec_cmp_strs(a.deep_view(), b.deep_view()) == spec_cmp_strs(
                a.deep_view().skip(i as int),
                b.deep_view().skip(i as int),
            ),
        decreases a@.len() - i,
    {
        proof {
            if i < a@.len() {
                assert(a.deep_view().skip(i as int).drop_first() =~= a.deep_view().skip(i + 1));
            }
            if i < b@.len() {
                assert(b.deep_view().skip(i as int).drop_first() =~= b.deep_view().skip(i + 1));
            }
        }
        if i == a.len() && i == b.len() {
            return 0;
        }
        if i == a.len() {
            return -1;
        }
        if i == b.len() {
            return 1;
        }
        let h = cmp_str(&a[i], &b[i]);
        proof {
            assert(a.deep_view().skip(i as int)[0] == a.deep_view()[i as int]);
            assert(b.deep_view().skip(i as int)[0] == b.deep_view()[i as int]);
            assert(a.deep_view()[i as int] == a@[i as int]@);
            assert(b.deep_view()[i as int] == b@[i as int]@);
        }
        if h != 0 {
            return h;
        }
        i += 1;
    }
}

/// Three-way comparison of two associations by the canonical key.
pub fn cmp_assoc(a: &Association, b: &Association) -> (r: i8)
    requires
        a.p_value.wf(),
        b.p_value.wf(),
    ensures
        r as int == spec_cmp_assoc(a@, b@),
{
    let c1 = cmp_u32s(&a.traits, &b.traits);
    if c1 != 0 {
        return c1;
    }
    let c2 = pv_cmp(&a.p_value, &b.p_value);
    proof {
        lemma_cmp_pv_props(a.p_value, b.p_value);
    }
    if c2 != 0 {
        return c2;
    }
    let c3 = cmp_strs(&a.mapped_gene, &b.mapped_gene);
    if c3 != 0 {
        return c3;
    }
    if a.accession_id < b.accession_id {
        return -1;
    }
    if a.accession_id > b.accession_id {
        return 1;
    }
    if a.pubmed < b.pubmed {
        return -1;
    }
    if a.pubmed > b.pubmed {
        return 1;
    }
    0
}

// ---------------------------------------------------------------------------
// Sorted, duplicate-free collections.
// ---------------------------------------------------------------------------
/// Views of a run of associations.
pub open spec fn views_of(s: Seq<Association>) -> Seq<AssocView> {
    s.map_values(|a: Association| a@)
}

/// Sorted ascending by the canonical key.
pub open spec fn sorted_assocs(s: Seq<Association>) -> bool {
    forall|i: int, j: int| 0 <= i < j < s.len() ==> spec_le_assoc(s[i]@, s[j]@)
}

/// Pairwise distinct views.
pub open spec fn distinct_assocs(s: Seq<Association>) -> bool {
    forall|i: int, j: int| 0 <= i < j < s.len() ==> s[i]@ != s[j]@
}

pub open spec fn all_wf_assocs(s: Seq<Association>) -> bool {
    forall|i: int| 0 <= i < s.len() ==> (#[trigger] s[i]).wf()
}

/// Inserts `x` into a sorted duplicate-free run, keeping it sorted and
/// duplicate-free; an association already present (by view) is dropped.
pub fn insert_assoc_unique(out: &mut Vec<Association>, x: Association)
    requires
        sorted_assocs(old(out)@),
        distinct_assocs(old(out)@),
        all_wf_assocs(old(out)@),
        x.wf(),
    ensures
        sorted_assocs(final(out)@),
        distinct_assocs(final(out)@),
        all_wf_assocs(final(out)@),
        forall|y: AssocView| #[trigger]
            views_of(final(out)@).contains(y) <==> (views_of(old(out)@).contains(y) || y == x@),
{
    let ghost orig = out@;
    let mut i: usize = 0;
    loop
        invariant
            0 <= i <= out@.len(),
            out@ == orig,
            sorted_assocs(orig),
            distinct_assocs(orig),
            all_wf_assocs(orig),
            x.wf(),
            forall|k: int| 0 <= k < i ==> spec_cmp_assoc(orig[k]@, x@) < 0,
        ensures
            0 <= i <= orig.len(),
            out@ == orig,
            forall|k: int| 0 <= k < i ==> spec_cmp_assoc(orig[k]@, x@) < 0,
            i < orig.len() ==> spec_cmp_assoc(orig[i as int]@, x@) > 0,
        decreases out@.len() - i,
    {
        if i == out.len() {
            break;
        }
        let c = cmp_assoc(&out[i], &x);
        proof {
            lemma_cmp_assoc_props(orig[i as int]@, x@);
        }
        if c == 0 {
            proof {
                assert(views_of(orig)[i as int] == orig[i as int]@);
                assert(views_of(orig).contains(x@));
                assert forall|y: AssocView| #[trigger]
                    views_of(out@).contains(y) <==> (views_of(orig).contains(y) || y == x@) by {}
            }
            return;
        }
        if c > 0 {
            break;
        }
        i += 1;
    }
    out.insert(i, x);
    proof {
        let nv = out@;
        assert(nv == orig.insert(i as int, x));
        // every old element keeps a slot, and x sits at i
        assert forall|k: int| 0 <= k < nv.len() implies (#[trigger] nv[k]).wf() by {
            if k < i {
                assert(nv[k] == orig[k]);
            } else if k == i {
            } else {
                assert(nv[k] == orig[k - 1]);
            }
        }
        assert forall|p: int, q: int| 0 <= p < q < nv.len() implies spec_le_assoc(
            nv[p]@,
            nv[q]@,
        ) by {
            lemma_insert_order(orig, x, i as int, p, q);
        }
        assert forall|p: int, q: int| 0 <= p < q < nv.len() implies nv[p]@ != nv[q]@ by {
            lemma_insert_distinct(orig, x, i as int, p, q);
        }
        assert forall|y: AssocView| #[trigger]
            views_of(nv).contains(y) <==> (views_of(orig).contains(y) || y == x@) by {
            if views_of(nv).contains(y) {
                let k = choose|k: int| 0 <= k < nv.len() && views_of(nv)[k] == y;
                if k < i {
                    assert(views_of(orig)[k] == orig[k]@);
                    assert(views_of(orig).contains(y));
                } else if k == i {
                } else {
                    assert(views_of(orig)[k - 1] == orig[k - 1]@);
                    assert(views_of(orig).contains(y));
                }
            }
            if views_of(orig).contains(y) {
                let k = choose|k: int| 0 <= k < orig.len() && views_of(orig)[k] == y;
                if k < i {
                    assert(views_of(nv)[k] == nv[k]@);
                } else {
                    assert(views_of(nv)[k + 1] == nv[k + 1]@);
                    assert(nv[k + 1] == orig[k]);
                }
            }
            if y == x@ {
                assert(views_of(nv)[i as int] == nv[i as int]@);
            }
        }
    }
}

/// Inserting at the found position keeps the run sorted.
proof fn lemma_insert_order(orig: Seq<Association>, x: Association, i: int, p: int, q: int)
    requires
        sorted_assocs(orig),
        all_wf_assocs(orig),
        x.wf(),
        0 <= i <= orig.len(),
        forall|k: int| 0 <= k < i ==> spec_cmp_assoc(orig[k]@, x@) < 0,
        i < orig.len() ==> spec_cmp_assoc(orig[i]@, x@) > 0,
        0 <= p < q < orig.insert(i, x).len(),
    ensures
        spec_le_assoc(orig.insert(i, x)[p]@, orig.insert(i, x)[q]@),
{
    let nv = orig.insert(i, x);
    if p < i && q < i {
        assert(nv[p] == orig[p] && nv[q] == orig[q]);
    } else if p < i && q == i {
        assert(nv[p] == orig[p]);
    } else if p < i && q > i {
        assert(nv[p] == orig[p] && nv[q] == orig[q - 1]);
        if q - 1 == p {
            lemma_cmp_assoc_props(orig[p]@, x@);
            lemma_cmp_assoc_props(orig[q - 1]@, x@);
        }
    } else if p == i {
        assert(nv[p] == x);
        assert(nv[q] == orig[q - 1]);
        lemma_cmp_assoc_props(orig[i]@, x@);
        if q - 1 > i {
            lemma_cmp_assoc_trans(x@, orig[i]@, orig[q - 1]@);
        }
    } else {
        assert(nv[p] == orig[p - 1] && nv[q] == orig[q - 1]);
    }
}

/// Inserting a view that is not already present keeps the run
/// duplicate-free.
proof fn lemma_insert_distinct(orig: Seq<Association>, x: Association, i: int, p: int, q: int)
    requires
        sorted_assocs(orig),
        distinct_assocs(orig),
        all_wf_assocs(orig),
        x.wf(),
        0 <= i <= orig.len(),
        forall|k: int| 0 <= k < i ==> spec_cmp_assoc(orig[k]@, x@) < 0,
        i < orig.len() ==> spec_cmp_assoc(orig[i]@, x@) > 0,
        0 <= p < q < orig.insert(i, x).len(),
    ensures
        orig.insert(i, x)[p]@ != orig.insert(i, x)[q]@,
{
    let nv = orig.insert(i, x);
    lemma_cmp_assoc_props(x@, x@);
    if p < i && q < i {
        assert(nv[p] == orig[p] && nv[q] == orig[q]);
    } else if p < i && q == i {
        assert(nv[p] == orig[p]);
        // a view equal to x would compare equal to x
        if orig[p]@ == x@ {
            assert(spec_cmp_assoc(orig[p]@, x@) == spec_cmp_assoc(x@, x@));
            assert(false);
        }
    } else if p < i && q > i {
        assert(nv[p] == orig[p] && nv[q] == orig[q - 1]);
    } else if p == i {
        assert(nv[p] == x && nv[q] == orig[q - 1]);
        if q - 1 == i {
            if x@ == orig[i]@ {
                assert(spec_cmp_assoc(orig[i]@, x@) == spec_cmp_assoc(x@, x@));
                assert(false);
            }
        } else {
            if x@ == orig[q - 1]@ {
                lemma_cmp_assoc_props(orig[i]@, x@);
                assert(spec_cmp_assoc(orig[i]@, orig[q - 1]@) == spec_cmp_assoc(orig[i]@, x@));
                assert(spec_cmp_assoc(orig[i]@, orig[q - 1]@) > 0);
                assert(spec_le_assoc(orig[i]@, orig[q - 1]@));
                assert(false);
            }
        }
    } else {
        assert(nv[p] == orig[p - 1] && nv[q] == orig[q - 1]);
    }
}

/// Sorted-unique insert for trait-id lists: the result is the old set plus
/// the new id, still strictly ascending.
pub fn insert_trait_id(v: &mut Vec<u32>, x: u32)
    requires
        strictly_sorted_u32s(old(v)@),
    ensures
        strictly_sorted_u32s(final(v)@),
        forall|y: u32| #[trigger] final(v)@.contains(y) <==> (old(v)@.contains(y) || y == x),
{
    let ghost orig = v@;
    let mut i: usize = 0;
    loop
        invariant
            0 <= i <= v@.len(),
            v@ == orig,
            strictly_sorted_u32s(orig),
            forall|k: int| 0 <= k < i ==> orig[k] < x,
        ensures
            0 <= i <= orig.len(),
            v@ == orig,
            forall|k: int| 0 <= k < i ==> orig[k] < x,
            i < orig.len() ==> orig[i as int] > x,
        decreases v@.len() - i,
    {
        if i == v.len() {
            break;
        }
        let y = v[i];
        if y == x {
            return;
        }
        if y > x {
            break;
        }
        i += 1;
    }
    v.insert(i, x);
    proof {
        let nv = v@;
        assert(nv == orig.insert(i as int, x));
        assert forall|p: int, q: int| 0 <= p < q < nv.len() implies nv[p] < nv[q] by {
            if p < i && q > i {
                assert(nv[p] == orig[p] && nv[q] == orig[q - 1]);
            } else if p == i && q > i {
                assert(nv[q] == orig[q - 1]);
            } else if p < i && q == i {
                assert(nv[p] == orig[p]);
            } else if q < i {
                assert(nv[p] == orig[p] && nv[q] == orig[q]);
            } else if p > i {
                assert(nv[p] == orig[p - 1] && nv[q] == orig[q - 1]);
            }
        }
        assert forall|y: u32| #[trigger] nv.contains(y) <==> (orig.contains(y) || y == x) by {
            if nv.contains(y) {
                let k = choose|k: int| 0 <= k < nv.len() && nv[k] == y;
                if k < i {
                    assert(orig[k] == y);
                } else if k > i {
                    assert(orig[k - 1] == y);
                }
            }
            if orig.contains(y) {
                let k = choose|k: int| 0 <= k < orig.len() && orig[k] == y;
                if k < i {
                    assert(nv[k] == y);
                } else {
                    assert(nv[k + 1] == y);
                }
            }
            if y == x {
                assert(nv[i as int] == x);
            }
        }
    }
}

} // verus!
