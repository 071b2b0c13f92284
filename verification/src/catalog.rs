use crate::operator::OperatorCategory;
use crate::text::{str_eq, str_lt};
use vstd::prelude::*;

verus! {

broadcast use vstd::seq_lib::to_multiset_insert;

/// An operator listed in the catalog.
#[derive(Debug, Clone, Copy, PartialEq, Eq, PartialOrd, Ord)]
pub struct CatalogEntry {
    pub category: OperatorCategory,
    pub display_name: &'static str,
    pub path: &'static str,
}

/// Catalog order: by category, then by display name, then by path; `a` comes before `b`.
pub open spec fn entry_lt(a: CatalogEntry, b: CatalogEntry) -> bool {
    ||| crate::operator::category_rank(a.category) < crate::operator::category_rank(b.category)
    ||| a.category == b.category && crate::text::text_lt(a.display_name@, b.display_name@)
    ||| a.category == b.category && a.display_name@ == b.display_name@ && crate::text::text_lt(
        a.path@,
        b.path@,
    )
}

/// The entries are in catalog order: no entry comes before one that precedes it.
pub open spec fn catalog_sorted(s: Seq<CatalogEntry>) -> bool {
    forall|i: int, j: int| 0 <= i < j < s.len() ==> !entry_lt(#[trigger] s[j], #[trigger] s[i])
}

/// Catalog order is a strict order: never both ways, and transitive.
pub proof fn lemma_entry_lt_order(a: CatalogEntry, b: CatalogEntry, c: CatalogEntry)
    ensures
        !(entry_lt(a, b) && entry_lt(b, a)),
        entry_lt(a, b) && entry_lt(b, c) ==> entry_lt(a, c),
{
    crate::text::lemma_text_lt_trichotomy(a.display_name@, b.display_name@);
    crate::text::lemma_text_lt_trichotomy(a.path@, b.path@);
    crate::text::lemma_text_lt_trichotomy(a.display_name@, a.display_name@);
    crate::text::lemma_text_lt_trichotomy(a.path@, a.path@);
    if crate::text::text_lt(a.display_name@, b.display_name@) && crate::text::text_lt(
        b.display_name@,
        c.display_name@,
    ) {
        crate::text::lemma_text_lt_transitive(a.display_name@, b.display_name@, c.display_name@);
    }
    if crate::text::text_lt(a.path@, b.path@) && crate::text::text_lt(b.path@, c.path@) {
        crate::text::lemma_text_lt_transitive(a.path@, b.path@, c.path@);
    }
    assert(a.category == b.category <==> crate::operator::category_rank(a.category)
        == crate::operator::category_rank(b.category));
    assert(b.category == c.category <==> crate::operator::category_rank(b.category)
        == crate::operator::category_rank(c.category));
}

impl CatalogEntry {
    /// Whether this entry comes before `other` in the catalog.
    pub fn precedes(&self, other: &CatalogEntry) -> (res: bool)
        ensures
            res == entry_lt(*self, *other),
    {
        let ra = self.category.rank();
        let rb = other.category.rank();
        proof {
            assert(self.category == other.category <==> crate::operator::category_rank(self.category)
                == crate::operator::category_rank(other.category));
        }
        if ra != rb {
            return ra < rb;
        }
        if str_lt(self.display_name, other.display_name) {
            return true;
        }
        str_eq(self.display_name, other.display_name) && str_lt(self.path, other.path)
    }
}

/// The entries in catalog order (entries that are equal keep their relative order).
pub fn sort_catalog(entries: Vec<CatalogEntry>) -> (res: Vec<CatalogEntry>)
    ensures
        catalog_sorted(res@),
        res@.to_multiset() == entries@.to_multiset(),
{
    let mut out: Vec<CatalogEntry> = Vec::new();
    let mut i: usize = 0;
    proof {
        assert(entries@.take(0) =~= Seq::<CatalogEntry>::empty());
    }
    while i < entries.len()
        invariant
            i <= entries.len(),
            catalog_sorted(out@),
            out@.to_multiset() == entries@.take(i as int).to_multiset(),
        decreases entries.len() - i,
    {
        let e = entries[i];
        let mut pos: usize = 0;
        while pos < out.len() && !e.precedes(&out[pos])
            invariant
                pos <= out.len(),
                forall|m: int| 0 <= m < pos ==> !entry_lt(e, #[trigger] out@[m]),
            decreases out.len() - pos,
        {
            pos += 1;
        }
        let ghost old_out = out@;
        out.insert(pos, e);
        proof {
            assert(out@ == old_out.insert(pos as int, e));
            assert forall|a: int, b: int| 0 <= a < b < out@.len() implies !entry_lt(
                #[trigger] out@[b],
                #[trigger] out@[a],
            ) by {
                if b < pos {
                    assert(!entry_lt(old_out[b], old_out[a]));
                } else if b == pos {
                    assert(!entry_lt(e, old_out[a]));
                } else if a == pos {
                    // e precedes old_out[pos], and old_out[pos] is not after old_out[b - 1]
                    if b - 1 > pos {
                        assert(!entry_lt(old_out[b - 1], old_out[pos as int]));
                    }
                    lemma_entry_lt_order(old_out[b - 1], e, old_out[pos as int]);
                } else if a < pos {
                    assert(!entry_lt(old_out[b - 1], old_out[a]));
                } else {
                    assert(!entry_lt(old_out[b - 1], old_out[a - 1]));
                }
            }
            assert(entries@.take(i + 1) =~= entries@.take(i as int).push(e));
            vstd::seq_lib::to_multiset_build(entries@.take(i as int), e);
        }
        i += 1;
    }
    proof {
        assert(entries@.take(entries.len() as int) =~= entries@);
    }
    out
}

/// Categories are listed in the order in which they are declared: Input, Output, Pattern,
/// Generator, Filter, Converter.
pub proof fn lemma_category_order()
    ensures
        crate::operator::category_rank(OperatorCategory::Input) < crate::operator::category_rank(
            OperatorCategory::Output,
        ),
        crate::operator::category_rank(OperatorCategory::Output) < crate::operator::category_rank(
            OperatorCategory::Pattern,
        ),
        crate::operator::category_rank(OperatorCategory::Pattern) < crate::operator::category_rank(
            OperatorCategory::Generator,
        ),
        crate::operator::category_rank(OperatorCategory::Generator) < crate::operator::category_rank(
            OperatorCategory::Filter,
        ),
        crate::operator::category_rank(OperatorCategory::Filter) < crate::operator::category_rank(
            OperatorCategory::Converter,
        ),
{
}

/// In a catalog in order, an entry of a category declared later never stands before an entry
/// of a category declared earlier.
pub proof fn lemma_sorted_catalog_groups_categories(s: Seq<CatalogEntry>, i: int, j: int)
    requires
        catalog_sorted(s),
        0 <= i < j < s.len(),
    ensures
        crate::operator::category_rank(s[i].category) <= crate::operator::category_rank(s[j].category),
{
    assert(!entry_lt(s[j], s[i]));
}

} // verus!
