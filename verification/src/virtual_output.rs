//! Output assets that are made from content that was passed in.

use crate::asset::AssetContentVc;
use crate::output::OutputAsset;
use std::rc::Rc;
use vstd::prelude::*;

verus! {

/// An asset that is created from some passed source code.
pub struct VirtualOutputAsset {
    pub path: String,
    pub content: AssetContentVc,
}

/// A shared, immutable cell that holds a virtual output asset.
pub struct VirtualOutputAssetVc {
    cell: Rc<VirtualOutputAsset>,
}

impl OutputAsset for VirtualOutputAsset {
    /// The path of the asset.
    open spec fn ident_view(&self) -> Seq<char> {
        self.path@
    }

    fn ident(&self) -> (result: String) {
        self.path.clone()
    }
}

impl VirtualOutputAsset {
    /// The content that was passed in.
    pub fn content(&self) -> (result: AssetContentVc)
        ensures
            result == self.content,
    {
        self.content
    }
}

impl View for VirtualOutputAssetVc {
    type V = VirtualOutputAsset;

    closed spec fn view(&self) -> VirtualOutputAsset {
        *self.cell
    }
}

impl VirtualOutputAssetVc {
    /// An asset at `path` with the given content.
    pub fn new(path: String, content: AssetContentVc) -> (result: Self)
        ensures
            result@.path == path,
            result@.content == content,
    {
        VirtualOutputAssetVc { cell: Rc::new(VirtualOutputAsset { path, content }) }
    }

    /// The asset in the cell.
    pub fn get(&self) -> (result: &VirtualOutputAsset)
        ensures
            *result == self@,
    {
        &self.cell
    }
}

} // verus!
