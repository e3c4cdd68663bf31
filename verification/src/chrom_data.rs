//! Per-chromosome naming: a chromosome's display name and its index.

use vstd::prelude::*;

verus! {

/// Names one chromosome and fixes its index in the canonical order.
#[derive(Debug, Clone, PartialEq)]
pub struct ChromosomeData {
    pub chrom: String,
    pub index: u8,
}

/// Mathematical model of a chromosome entry.
#[verifier::ext_equal]
pub struct ChromosomeModel {
    pub chrom: Seq<char>,
    pub index: u8,
}

impl View for ChromosomeData {
    type V = ChromosomeModel;

    open spec fn view(&self) -> ChromosomeModel {
        ChromosomeModel { chrom: self.chrom.deep_view(), index: self.index }
    }
}

impl DeepView for ChromosomeData {
    type V = ChromosomeModel;

    open spec fn deep_view(&self) -> ChromosomeModel {
        self.view()
    }
}

impl ChromosomeData {
    /// Builds the entry for one chromosome from its name and index.
    pub fn from(chrom: &str, chrom_idx: u8) -> (cd: Self)
        ensures
            cd@.chrom == chrom@,
            cd@.index == chrom_idx,
    {
        let cd = ChromosomeData { chrom: chrom.to_owned(), index: chrom_idx };
        cd
    }
}

} // verus!
