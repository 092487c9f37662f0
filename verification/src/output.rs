//! Assets that are written out, and the handles by which they are named.

use crate::asset::AssetKindError;
use crate::asset::ResolvedAsset;
use crate::index_set::OrderedIdSet;
use std::rc::Rc;
use vstd::prelude::*;

verus! {

/// An asset that is written to disk or served.
pub trait OutputAsset {
    /// The string identity of the asset.
    spec fn ident_view(&self) -> Seq<char>;

    /// The identifier of the asset. It is unique and captures everything
    /// that tells the asset from others.
    fn ident(&self) -> (result: String)
        ensures
            result@ == self.ident_view(),
    ;
}

/// A handle to an output asset.
#[derive(Clone, Copy, Debug, PartialEq, Eq, Structural, PartialOrd, Ord, Hash)]
pub struct OutputAssetVc {
    pub id: u64,
}

/// A list of output assets.
pub struct OutputAssets(pub Vec<OutputAssetVc>);

/// A shared, immutable cell that holds a list of output assets.
pub struct OutputAssetsVc {
    cell: Rc<OutputAssets>,
}

impl View for OutputAssetsVc {
    type V = Seq<OutputAssetVc>;

    closed spec fn view(&self) -> Seq<OutputAssetVc> {
        self.cell.0@
    }
}

impl OutputAssetsVc {
    /// A cell that holds the given list.
    pub fn cell(assets: OutputAssets) -> (result: Self)
        ensures
            result@ == assets.0@,
    {
        OutputAssetsVc { cell: Rc::new(assets) }
    }

    /// A cell that holds the empty list.
    pub fn empty() -> (result: Self)
        ensures
            result@ == Seq::<OutputAssetVc>::empty(),
    {
        Self::cell(OutputAssets(Vec::new()))
    }

    /// The assets in the cell.
    pub fn assets(&self) -> (result: &Vec<OutputAssetVc>)
        ensures
            result@ == self@,
    {
        &self.cell.0
    }
}

/// An ordered, duplicate-free set of output assets.
pub struct OutputAssetsSet {
    ids: OrderedIdSet,
}

impl View for OutputAssetsSet {
    type V = Seq<u64>;

    /// The identifiers of the assets, in the order in which they arrived.
    closed spec fn view(&self) -> Seq<u64> {
        self.ids@
    }
}

impl OutputAssetsSet {
    /// No asset occurs twice.
    pub open spec fn wf(&self) -> bool {
        self@.no_duplicates()
    }

    /// The empty set.
    pub fn new() -> (result: Self)
        ensures
            result@ == Seq::<u64>::empty(),
            result.wf(),
    {
        OutputAssetsSet { ids: OrderedIdSet::new() }
    }

    /// Adds `asset` at the end unless the set holds it already; says whether
    /// it was added.
    pub fn insert(&mut self, asset: OutputAssetVc) -> (inserted: bool)
        ensures
            inserted == !old(self)@.contains(asset.id),
            final(self)@ == if inserted {
                old(self)@.push(asset.id)
            } else {
                old(self)@
            },
            old(self).wf() ==> final(self).wf(),
    {
        self.ids.insert(asset.id)
    }

    /// Whether the set holds `asset`.
    pub fn contains(&self, asset: &OutputAssetVc) -> (found: bool)
        ensures
            found == self@.contains(asset.id),
    {
        self.ids.contains(asset.id)
    }

    /// The number of assets in the set.
    pub fn len(&self) -> (len: usize)
        ensures
            len == self@.len(),
    {
        self.ids.len()
    }
}

/// The asset as an output asset; an asset that is none is refused.
pub fn asset_to_output_asset(asset: ResolvedAsset) -> (result: Result<
    OutputAssetVc,
    AssetKindError,
>)
    ensures
        result == match asset.output_asset {
            Some(output_asset) => Ok::<OutputAssetVc, AssetKindError>(output_asset),
            None => Err(AssetKindError::NotAnOutputAsset),
        },
{
    match asset.output_asset {
        Some(output_asset) => Ok(output_asset),
        None => Err(AssetKindError::NotAnOutputAsset),
    }
}

} // verus!
