//! The entity model: catalog associations, ontology trait nodes, the cache
//! metadata record, and the secondary-dataset record.
use vstd::prelude::*;
use crate::pvalue::{PValue, spec_lt, spec_threshold, pv_lt, pv_wf, threshold};

verus! {

/// One normalized catalog record: sorted deduplicated trait ids, an exact
/// decimal p-value, sorted upper-cased gene names, and the two numeric
/// identifiers.
#[derive(Debug, Clone)]
pub struct Association {
    pub traits: Vec<u32>,
    pub p_value: PValue,
    pub mapped_gene: Vec<String>,
    pub accession_id: u32,
    pub pubmed: u32,
}

/// Mathematical view of an association.
#[verifier::ext_equal]
pub struct AssocView {
    pub traits: Seq<u32>,
    pub p_value: PValue,
    pub mapped_gene: Seq<Seq<char>>,
    pub accession_id: u32,
    pub pubmed: u32,
}

impl View for Association {
    type V = AssocView;

    open spec fn view(&self) -> AssocView {
        AssocView {
            traits: self.traits@,
            p_value: self.p_value,
            mapped_gene: self.mapped_gene.deep_view(),
            accession_id: self.accession_id,
            pubmed: self.pubmed,
        }
    }
}

/// Ascending order (duplicates allowed) on a sequence of ids.
pub open spec fn sorted_u32s(s: Seq<u32>) -> bool {
    forall|i: int, j: int| 0 <= i < j < s.len() ==> s[i] <= s[j]
}

/// Strictly ascending: sorted and free of duplicates.
pub open spec fn strictly_sorted_u32s(s: Seq<u32>) -> bool {
    forall|i: int, j: int| 0 <= i < j < s.len() ==> s[i] < s[j]
}

impl Association {
    /// The shape every ingested association has: trait ids strictly
    /// ascending and a normalized p-value.
    pub open spec fn wf(self) -> bool {
        &&& strictly_sorted_u32s(self@.traits)
        &&& self.p_value.wf()
    }

    /// Whether the p-value lies strictly below the fixed significance
    /// threshold of `5 * 10^-8`.
    pub fn is_significant(&self) -> (r: bool)
        ensures
            r == spec_lt(self.p_value, spec_threshold()),
    {
        let t = threshold();
        pv_lt(&self.p_value, &t)
    }

    /// Whether `efo` occurs in the trait-id list.
    pub fn is_associated_with(&self, efo: u32) -> (r: bool)
        ensures
            r == self@.traits.contains(efo),
    {
        let mut i: usize = 0;
        while i < self.traits.len()
            invariant
                0 <= i <= self.traits@.len(),
                forall|k: int| 0 <= k < i ==> self.traits@[k] != efo,
            decreases self.traits@.len() - i,
        {
            if self.traits[i] == efo {
                return true;
            }
            i += 1;
        }
        false
    }
}

/// Adjacent strict ascent gives strict ascent everywhere.
proof fn lemma_adjacent_strict(s: Seq<u32>, i: int, j: int)
    requires
        forall|k: int| 0 <= k < s.len() - 1 ==> s[k] < #[trigger] s[k + 1],
        0 <= i < j < s.len(),
    ensures
        s[i] < s[j],
    decreases j - i,
{
    if j == i + 1 {
        assert(s[i] < s[i + 1]);
    } else {
        lemma_adjacent_strict(s, i, j - 1);
        assert(s[j - 1] < s[(j - 1) + 1]);
    }
}

impl Association {
    /// Whether the association is well-formed, executably: decoded archives
    /// are unchecked by design, so a caller tests this before relying on
    /// the shape.
    pub fn check_wf(&self) -> (r: bool)
        ensures
            r == self.wf(),
    {
        if !pv_wf(&self.p_value) {
            return false;
        }
        let mut i: usize = 0;
        while i < self.traits.len()
            invariant
                0 <= i <= self.traits@.len(),
                forall|k: int|
                    0 <= k < i && k < self.traits@.len() - 1 ==> self.traits@[k]
                        < #[trigger] self.traits@[k + 1],
        decreases self.traits@.len() - i,
        {
            if i + 1 < self.traits.len() && self.traits[i] >= self.traits[i + 1] {
                proof {
                    assert(!strictly_sorted_u32s(self@.traits));
                }
                return false;
            }
            i += 1;
        }
        proof {
            assert forall|p: int, q: int|
                0 <= p < q < self.traits@.len() implies self.traits@[p] < self.traits@[q] by {
                lemma_adjacent_strict(self.traits@, p, q);
            }
        }
        true
    }
}

/// One ontology entry. Identity is the numeric id alone; children and
/// synonyms are sets kept as duplicate-free vectors.
#[derive(Debug, Clone)]
pub struct Efo {
    pub id: u32,
    pub label: String,
    pub parent: Option<u32>,
    pub children: Vec<u32>,
    pub synonyms: Vec<String>,
}

#[verifier::ext_equal]
pub struct EfoView {
    pub id: u32,
    pub label: Seq<char>,
    pub parent: Option<u32>,
    pub children: Seq<u32>,
    pub synonyms: Seq<Seq<char>>,
}

impl View for Efo {
    type V = EfoView;

    open spec fn view(&self) -> EfoView {
        EfoView {
            id: self.id,
            label: self.label@,
            parent: self.parent,
            children: self.children.deep_view(),
            synonyms: self.synonyms.deep_view(),
        }
    }
}

pub open spec fn no_dup_u32s(s: Seq<u32>) -> bool {
    forall|i: int, j: int| 0 <= i < j < s.len() ==> s[i] != s[j]
}

impl Efo {
    /// Children and synonyms behave as sets: no duplicates.
    pub open spec fn wf(self) -> bool {
        &&& no_dup_u32s(self@.children)
        &&& (forall|i: int, j: int|
            0 <= i < j < self@.synonyms.len() ==> self@.synonyms[i] != self@.synonyms[j])
    }

    /// Whether `label` occurs in the synonym set.
    pub fn has_synonym(&self, label: &String) -> (r: bool)
        ensures
            r == self@.synonyms.contains(label@),
    {
        let mut i: usize = 0;
        while i < self.synonyms.len()
            invariant
                0 <= i <= self.synonyms@.len(),
                self@.synonyms =~= self.synonyms.deep_view(),
                forall|k: int| 0 <= k < i ==> self.synonyms.deep_view()[k] != label@,
            decreases self.synonyms@.len() - i,
        {
            if self.synonyms[i] == *label {
                proof {
                    assert(self.synonyms.deep_view()[i as int] == self.synonyms@[i as int]@);
                }
                return true;
            }
            proof {
                assert(self.synonyms.deep_view()[i as int] == self.synonyms@[i as int]@);
            }
            i += 1;
        }
        false
    }
}

/// The single cache marker: when the snapshot was last refreshed, in
/// seconds since the Unix epoch.
#[derive(Debug, Clone, Copy, PartialEq, Eq, Structural)]
pub struct Metadata {
    pub last_updated: i64,
}

/// One record of the secondary dataset: trait name, a single gene name,
/// and an exact decimal p-value.
#[derive(Debug, Clone)]
pub struct AzAssociation {
    pub trait_: String,
    pub mapped_gene: String,
    pub p_value: PValue,
}

#[verifier::ext_equal]
pub struct AzAssocView {
    pub trait_: Seq<char>,
    pub mapped_gene: Seq<char>,
    pub p_value: PValue,
}

impl View for AzAssociation {
    type V = AzAssocView;

    open spec fn view(&self) -> AzAssocView {
        AzAssocView {
            trait_: self.trait_@,
            mapped_gene: self.mapped_gene@,
            p_value: self.p_value,
        }
    }
}

impl AzAssociation {
    pub fn is_significant(&self) -> (r: bool)
        ensures
            r == spec_lt(self.p_value, spec_threshold()),
    {
        let t = threshold();
        pv_lt(&self.p_value, &t)
    }

    /// Whether the record's trait name equals `term` exactly.
    pub fn is_associated_with(&self, term: &String) -> (r: bool)
        ensures
            r == (self@.trait_ == term@),
    {
        self.trait_ == *term
    }
}

} // verus!
