//! Modules and the handles by which the rest of the library names them.

use crate::asset::AssetKindError;
use crate::asset::ResolvedAsset;
use crate::asset::SourceVc;
use crate::index_set::OrderedIdSet;
use crate::reference::chunkable_children;
use crate::reference::chunkable_children_of;
use crate::reference::ModuleReference;
use std::collections::HashMap;
use std::rc::Rc;
use vstd::prelude::*;

verus! {

/// A handle to a module: its stable identity within a module graph. Handles
/// are cheap to copy and compare; the module itself stays with the graph.
#[derive(Clone, Copy, Debug, PartialEq, Eq, Structural, PartialOrd, Ord, Hash)]
pub struct ModuleVc {
    pub id: u64,
}

/// A module: parsed source code that refers to other modules.
pub trait Module {
    /// The string identity of the module.
    spec fn ident_view(&self) -> Seq<char>;

    /// The identifier of the module. It is unique and captures everything
    /// that tells the module from others.
    fn ident(&self) -> (result: String)
        ensures
            result@ == self.ident_view(),
    ;
}

/// The identifiers behind a list of handles.
pub open spec fn module_ids(modules: Seq<ModuleVc>) -> Seq<u64> {
    modules.map_values(|module: ModuleVc| module.id)
}

/// A module that may be absent.
pub struct OptionModule(pub Option<ModuleVc>);

/// A list of modules.
pub struct Modules(pub Vec<ModuleVc>);

/// A shared, immutable cell that holds a list of modules.
pub struct ModulesVc {
    cell: Rc<Modules>,
}

impl View for ModulesVc {
    type V = Seq<ModuleVc>;

    closed spec fn view(&self) -> Seq<ModuleVc> {
        self.cell.0@
    }
}

impl ModulesVc {
    /// A cell that holds the given list.
    pub fn cell(modules: Modules) -> (result: Self)
        ensures
            result@ == modules.0@,
    {
        ModulesVc { cell: Rc::new(modules) }
    }

    /// A cell that holds the empty list.
    pub fn empty() -> (result: Self)
        ensures
            result@ == Seq::<ModuleVc>::empty(),
    {
        Self::cell(Modules(Vec::new()))
    }

    /// The modules in the cell.
    pub fn modules(&self) -> (result: &Vec<ModuleVc>)
        ensures
            result@ == self@,
    {
        &self.cell.0
    }
}

/// An ordered, duplicate-free set of modules.
pub struct ModulesSet {
    ids: OrderedIdSet,
}

impl View for ModulesSet {
    type V = Seq<u64>;

    /// The identifiers of the modules, in the order in which they arrived.
    closed spec fn view(&self) -> Seq<u64> {
        self.ids@
    }
}

impl ModulesSet {
    /// No module occurs twice.
    pub open spec fn wf(&self) -> bool {
        self@.no_duplicates()
    }

    /// The empty set.
    pub fn new() -> (result: Self)
        ensures
            result@ == Seq::<u64>::empty(),
            result.wf(),
    {
        ModulesSet { ids: OrderedIdSet::new() }
    }

    /// Adds `module` at the end unless the set holds it already; says whether
    /// it was added.
    pub fn insert(&mut self, module: ModuleVc) -> (inserted: bool)
        ensures
            inserted == !old(self)@.contains(module.id),
            final(self)@ == if inserted {
                old(self)@.push(module.id)
            } else {
                old(self)@
            },
            old(self).wf() ==> final(self).wf(),
    {
        self.ids.insert(module.id)
    }

    /// Whether the set holds `module`.
    pub fn contains(&self, module: &ModuleVc) -> (found: bool)
        ensures
            found == self@.contains(module.id),
    {
        self.ids.contains(module.id)
    }

    /// The number of modules in the set.
    pub fn len(&self) -> (len: usize)
        ensures
            len == self@.len(),
    {
        self.ids.len()
    }

    /// The module at position `index` of the set's order.
    pub fn get_index(&self, index: usize) -> (module: Option<ModuleVc>)
        ensures
            module == if index < self@.len() {
                Some(ModuleVc { id: self@[index as int] })
            } else {
                None
            },
    {
        match self.ids.get_index(index) {
            Some(id) => Some(ModuleVc { id }),
            None => None,
        }
    }
}

/// A module that stands for an asset: the asset itself, or a raw module that
/// wraps a source.
#[derive(Clone, Copy, Debug, PartialEq, Eq, Structural)]
pub enum ConvertedModule {
    Module(ModuleVc),
    RawModule(SourceVc),
}

/// The module that stands for an asset: the asset itself where it is a
/// module, else a raw module around it where it is a source. Any other asset
/// is refused.
pub fn convert_asset_to_module(asset: ResolvedAsset) -> (result: Result<
    ConvertedModule,
    AssetKindError,
>)
    ensures
        result == match (asset.module, asset.source) {
            (Some(module), _) => Ok::<ConvertedModule, AssetKindError>(
                ConvertedModule::Module(module),
            ),
            (None, Some(source)) => Ok(ConvertedModule::RawModule(source)),
            (None, None) => Err(AssetKindError::NotAModuleOrSource),
        },
{
    if let Some(module) = asset.module {
        Ok(ConvertedModule::Module(module))
    } else if let Some(source) = asset.source {
        Ok(ConvertedModule::RawModule(source))
    } else {
        Err(AssetKindError::NotAModuleOrSource)
    }
}

/// What a module graph knows of one module.
pub struct ModuleEntry {
    /// The stable string identity of the module.
    pub ident: String,
    /// The outgoing references in order, or `None` where looking them up
    /// fails.
    pub references: Option<Vec<ModuleReference>>,
}

impl Module for ModuleEntry {
    open spec fn ident_view(&self) -> Seq<char> {
        self.ident@
    }

    fn ident(&self) -> (result: String) {
        self.ident.clone()
    }
}

/// The modules of a bundle as far as they are known, each under its
/// identifier.
pub struct ModuleGraph {
    modules: HashMap<u64, ModuleEntry>,
}

impl View for ModuleGraph {
    type V = Map<u64, ModuleEntry>;

    /// The known modules by identifier.
    closed spec fn view(&self) -> Map<u64, ModuleEntry> {
        self.modules@
    }
}

/// The children of a module in the chunkable part of the graph: the targets
/// of its qualifying references, each once, in the order of first
/// occurrence. `None` where the lookup fails: the graph does not hold the
/// module, or its references or the targets of a qualifying reference cannot
/// be resolved.
pub open spec fn lookup_children(modules: Map<u64, ModuleEntry>, id: u64) -> Option<Seq<u64>> {
    if modules.contains_key(id) {
        match modules[id].references {
            Some(references) => chunkable_children_of(references@),
            None => None,
        }
    } else {
        None
    }
}

/// The chunkable part of a module graph: every module that has children, with
/// its children.
pub open spec fn chunkable_edges(modules: Map<u64, ModuleEntry>) -> Map<u64, Seq<u64>> {
    Map::new(
        |id: u64| lookup_children(modules, id) matches Some(children) && children.len() > 0,
        |id: u64| lookup_children(modules, id)->Some_0,
    )
}

/// Of finitely many modules, finitely many have children.
pub proof fn lemma_chunkable_edges_finite(modules: Map<u64, ModuleEntry>)
    requires
        modules.dom().finite(),
    ensures
        chunkable_edges(modules).dom().finite(),
{
    vstd::set_lib::lemma_len_subset(chunkable_edges(modules).dom(), modules.dom());
}

impl ModuleGraph {
    /// A graph without modules.
    pub fn new() -> (result: Self)
        ensures
            result@ == Map::<u64, ModuleEntry>::empty(),
    {
        ModuleGraph { modules: HashMap::new() }
    }

    /// A graph in memory holds finitely many modules.
    pub proof fn lemma_finite(&self)
        ensures
            self@.dom().finite(),
    {
    }

    /// The number of known modules.
    pub fn len(&self) -> (len: usize)
        ensures
            len == self@.len(),
    {
        self.modules.len()
    }

    /// Whether the graph knows `module`.
    pub fn contains(&self, module: ModuleVc) -> (known: bool)
        ensures
            known == self@.contains_key(module.id),
    {
        self.modules.contains_key(&module.id)
    }

    /// Records what is known of `module`, in place of what was known before,
    /// and returns the earlier entry where there was one.
    pub fn insert(&mut self, module: ModuleVc, entry: ModuleEntry) -> (earlier: Option<ModuleEntry>)
        ensures
            final(self)@ == old(self)@.insert(module.id, entry),
            earlier == if old(self)@.contains_key(module.id) {
                Some(old(self)@[module.id])
            } else {
                None
            },
    {
        self.modules.insert(module.id, entry)
    }

    /// The entry of `module`, or `None` where the graph does not know it.
    pub fn get(&self, module: ModuleVc) -> (result: Option<&ModuleEntry>)
        ensures
            result == if self@.contains_key(module.id) {
                Some(&self@[module.id])
            } else {
                None
            },
    {
        self.modules.get(&module.id)
    }

    /// The children of `module` in the chunkable part of the graph, or `None`
    /// where the lookup fails.
    pub fn chunkable_children(&self, module: ModuleVc) -> (result: Option<OrderedIdSet>)
        ensures
            match result {
                Some(children) => lookup_children(self@, module.id) == Some(children@)
                    && children.wf(),
                None => lookup_children(self@, module.id) is None,
            },
    {
        match self.get(module) {
            Some(entry) => match &entry.references {
                Some(references) => chunkable_children(references),
                None => None,
            },
            None => None,
        }
    }
}

} // verus!
