//! Which modules are already available to a chunk group: the chain of roots
//! that the enclosing chunk groups have provided.

use crate::chunk::chunkable_assets::chunkable_assets_of;
use crate::chunk::chunkable_assets::lemma_root_comes_last;
use crate::chunk::chunkable_assets::ChunkableAssetsMemo;
use crate::chunk::chunkable_assets::LookupError;
use crate::hash::number_bytes;
use crate::hash::strings_bytes;
use crate::hash::xxh3_64;
use crate::hash::HashBuffer;
use crate::module::lookup_children;
use crate::module::module_ids;
use crate::module::ModuleEntry;
use crate::module::ModuleGraph;
use crate::module::ModuleVc;
use std::rc::Rc;
use vstd::prelude::*;

verus! {

/// Whether one of `roots` brings `module` along. The roots are asked in
/// order and the first that does settles it; `None` where a lookup fails
/// before that.
pub open spec fn roots_include(modules: Map<u64, ModuleEntry>, roots: Seq<u64>, module: u64) -> Option<
    bool,
>
    decreases roots.len(),
{
    if roots.len() == 0 {
        Some(false)
    } else {
        match chunkable_assets_of(modules, roots[0]) {
            Some(set) => if set.contains(module) {
                Some(true)
            } else {
                roots_include(modules, roots.drop_first(), module)
            },
            None => None,
        }
    }
}

/// Whether a chain makes `module` available. A chain is given by the roots of
/// its links, the origin first. The ancestors are asked first, and their
/// answer stands where they include the module; otherwise the last link's
/// own roots decide. `None` where a lookup fails on the way.
pub open spec fn chain_includes(modules: Map<u64, ModuleEntry>, chain: Seq<Seq<u64>>, module: u64) -> Option<
    bool,
>
    decreases chain.len(),
{
    if chain.len() == 0 {
        Some(false)
    } else {
        match chain_includes(modules, chain.drop_last(), module) {
            Some(true) => Some(true),
            Some(false) => roots_include(modules, chain.last(), module),
            None => None,
        }
    }
}

/// The candidates that a chain does not make available yet, in the order in
/// which they were given. `None` where a lookup fails for one of the candidates.
pub open spec fn new_roots(modules: Map<u64, ModuleEntry>, chain: Seq<Seq<u64>>, candidates: Seq<u64>) -> Option<
    Seq<u64>,
>
    decreases candidates.len(),
{
    if candidates.len() == 0 {
        Some(Seq::empty())
    } else {
        match (
            new_roots(modules, chain, candidates.drop_last()),
            chain_includes(modules, chain, candidates.last()),
        ) {
            (Some(kept), Some(included)) => Some(
                if included {
                    kept
                } else {
                    kept.push(candidates.last())
                },
            ),
            _ => None,
        }
    }
}

/// The string identities of `roots`, or `None` where the graph does not hold
/// one of them.
pub open spec fn root_idents(modules: Map<u64, ModuleEntry>, roots: Seq<u64>) -> Option<Seq<Seq<char>>>
    decreases roots.len(),
{
    if roots.len() == 0 {
        Some(Seq::empty())
    } else {
        match root_idents(modules, roots.drop_last()) {
            Some(idents) => if modules.contains_key(roots.last()) {
                Some(idents.push(modules[roots.last()].ident@))
            } else {
                None
            },
            None => None,
        }
    }
}

/// What a chain without a parent hashes in place of its parent's hash.
pub const ORIGIN_HASH: u64 = 0;

/// The hash of a chain: the digest of the parent's hash, or of
/// [`ORIGIN_HASH`] at the origin, followed by the string identity of each
/// root of the last link, in stored order. `None` where the graph does not
/// hold one of the chain's roots.
pub open spec fn chain_hash(modules: Map<u64, ModuleEntry>, chain: Seq<Seq<u64>>) -> Option<u64>
    decreases chain.len(),
{
    if chain.len() == 0 {
        Some(ORIGIN_HASH)
    } else {
        match (chain_hash(modules, chain.drop_last()), root_idents(modules, chain.last())) {
            (Some(parent), Some(idents)) => Some(
                xxh3_64(number_bytes(parent) + strings_bytes(idents)),
            ),
            _ => None,
        }
    }
}

/// One link of a chain of available modules: the roots that it adds to what
/// its parent provides. A link is never changed once it exists.
#[derive(Debug)]
pub struct AvailableAssets {
    parent: Option<AvailableAssetsVc>,
    roots: Vec<ModuleVc>,
}

/// A shared handle to a link, and through it to the chain that ends there.
#[derive(Clone, Debug)]
pub struct AvailableAssetsVc {
    cell: Rc<AvailableAssets>,
}

/// `Rc::clone`: another pointer to the same link.
#[verifier::external_body]
fn share(cell: &Rc<AvailableAssets>) -> (result: Rc<AvailableAssets>)
    ensures
        result == *cell,
{
    Rc::clone(cell)
}

impl View for AvailableAssetsVc {
    type V = Seq<Seq<u64>>;

    /// The roots of every link of the chain, the origin first.
    closed spec fn view(&self) -> Seq<Seq<u64>> {
        self.lineage()
    }
}

impl AvailableAssetsVc {
    /// The roots of every link of the chain, the origin first.
    pub closed spec fn lineage(self) -> Seq<Seq<u64>>
        decreases self,
    {
        match self.cell.parent {
            Some(parent) => parent.lineage().push(module_ids(self.cell.roots@)),
            None => seq![module_ids(self.cell.roots@)],
        }
    }

    /// Whether the chain is an origin: a single link without a parent.
    pub open spec fn is_origin(self) -> bool {
        self@.len() == 1
    }

    /// A chain has at least one link.
    pub proof fn lemma_not_empty(self)
        ensures
            self@.len() >= 1,
    {
        match self.cell.parent {
            Some(parent) => {},
            None => {},
        }
    }

    /// The last entry of the lineage holds the roots of this link.
    proof fn lemma_last_link(self)
        ensures
            self@.len() >= 1,
            self@.last() == module_ids(self.cell.roots@),
    {
        match self.cell.parent {
            Some(parent) => {},
            None => {},
        }
    }

    /// A link with the given parent and roots, both taken as they are.
    fn new_normalized(parent: Option<AvailableAssetsVc>, roots: Vec<ModuleVc>) -> (result: Self)
        ensures
            result@ == match parent {
                Some(parent) => parent@.push(module_ids(roots@)),
                None => seq![module_ids(roots@)],
            },
    {
        AvailableAssetsVc { cell: Rc::new(AvailableAssets { parent, roots }) }
    }

    /// An origin that provides the given roots, taken as they are.
    pub fn new(roots: Vec<ModuleVc>) -> (result: Self)
        ensures
            result@ == seq![module_ids(roots@)],
            result.is_origin(),
    {
        Self::new_normalized(None, roots)
    }

    /// Another handle to the same chain.
    pub fn share(&self) -> (result: Self)
        ensures
            result == *self,
    {
        AvailableAssetsVc { cell: share(&self.cell) }
    }

    /// The roots stored at the last link.
    pub fn roots(&self) -> (result: &Vec<ModuleVc>)
        ensures
            module_ids(result@) == self@.last(),
    {
        proof {
            self.lemma_last_link();
        }
        &self.cell.roots
    }

    /// The chain without its last link, or `None` at the origin.
    pub fn parent(&self) -> (result: Option<&AvailableAssetsVc>)
        ensures
            match result {
                Some(parent) => !self.is_origin() && parent@ == self@.drop_last(),
                None => self.is_origin(),
            },
    {
        match &self.cell.parent {
            Some(parent) => {
                proof {
                    parent.lemma_not_empty();
                    assert(self@.drop_last() =~= parent@);
                }
                Some(parent)
            },
            None => None,
        }
    }

    /// A chain that extends this one by a link with those of `roots` that
    /// this chain does not make available yet, in the order in which they
    /// were given. This chain stays as it is. Fails where a lookup fails
    /// while the candidates are tested.
    pub fn with_roots(&self, graph: &ModuleGraph, roots: Vec<ModuleVc>) -> (result: Result<
        Self,
        LookupError,
    >)
        ensures
            match result {
                Ok(chain) => new_roots(graph@, self@, module_ids(roots@)) matches Some(kept)
                    && chain@ == self@.push(kept) && !chain.is_origin(),
                Err(error) => new_roots(graph@, self@, module_ids(roots@)) is None
                    && lookup_children(graph@, error.module.id) is None,
            },
    {
        let mut memo = ChunkableAssetsMemo::new();
        self.with_roots_memoized(graph, &mut memo, roots)
    }

    /// As [`Self::with_roots`], with the sets of the roots looked up in
    /// `memo` and remembered there.
    pub fn with_roots_memoized(
        &self,
        graph: &ModuleGraph,
        memo: &mut ChunkableAssetsMemo,
        roots: Vec<ModuleVc>,
    ) -> (result: Result<Self, LookupError>)
        requires
            old(memo).valid_for(graph@),
        ensures
            final(memo).valid_for(graph@),
            match result {
                Ok(chain) => new_roots(graph@, self@, module_ids(roots@)) matches Some(kept)
                    && chain@ == self@.push(kept) && !chain.is_origin(),
                Err(error) => new_roots(graph@, self@, module_ids(roots@)) is None
                    && lookup_children(graph@, error.module.id) is None,
            },
    {
        let ghost candidates = module_ids(roots@);
        let mut kept: Vec<ModuleVc> = Vec::new();
        let mut i: usize = 0;
        while i < roots.len()
            invariant
                i <= roots.len(),
                memo.valid_for(graph@),
                candidates == module_ids(roots@),
                new_roots(graph@, self@, candidates.take(i as int)) == Some(module_ids(kept@)),
            decreases roots.len() - i,
        {
            let root = roots[i];
            assert(candidates.take(i + 1).drop_last() =~= candidates.take(i as int));
            assert(candidates.take(i + 1).last() == root.id);
            match self.includes_memoized(graph, memo, root) {
                Ok(included) => {
                    if !included {
                        let ghost before = module_ids(kept@);
                        kept.push(root);
                        assert(module_ids(kept@) =~= before.push(root.id));
                    }
                },
                Err(error) => {
                    proof {
                        lemma_new_roots_prefix(graph@, self@, candidates, i + 1);
                    }
                    return Err(error);
                },
            }
            i += 1;
        }
        assert(candidates.take(i as int) =~= candidates);
        proof {
            self.lemma_not_empty();
        }
        Ok(Self::new_normalized(Some(self.share()), kept))
    }

    /// The hash of the chain: the digest of the parent's hash, or of
    /// [`ORIGIN_HASH`] at the origin, followed by the string identity of each
    /// root of this link in stored order. Fails where the graph does not hold
    /// one of the chain's roots.
    pub fn hash(&self, graph: &ModuleGraph) -> (result: Result<u64, LookupError>)
        ensures
            match result {
                Ok(digest) => chain_hash(graph@, self@) == Some(digest),
                Err(error) => chain_hash(graph@, self@) is None && !graph@.contains_key(
                    error.module.id,
                ),
            },
        decreases self@.len(),
    {
        proof {
            self.lemma_not_empty();
        }
        let mut hasher = HashBuffer::new();
        let ghost parent_hash: u64;
        match self.parent() {
            Some(parent) => match parent.hash(graph) {
                Ok(digest) => {
                    hasher.write_u64(digest);
                    proof {
                        parent_hash = digest;
                    }
                },
                Err(error) => {
                    return Err(error);
                },
            },
            None => {
                hasher.write_u64(ORIGIN_HASH);
                proof {
                    parent_hash = ORIGIN_HASH;
                    assert(self@.drop_last() =~= Seq::<Seq<u64>>::empty());
                }
            },
        }
        let roots = self.roots();
        let ghost ids = module_ids(roots@);
        let ghost mut idents: Seq<Seq<char>> = Seq::empty();
        assert(ids.take(0) =~= Seq::<u64>::empty());
        assert(hasher@ =~= number_bytes(parent_hash) + strings_bytes(idents));
        let mut i: usize = 0;
        while i < roots.len()
            invariant
                i <= roots.len(),
                ids == module_ids(roots@),
                self@.len() >= 1,
                self@.last() == ids,
                chain_hash(graph@, self@.drop_last()) == Some(parent_hash),
                root_idents(graph@, ids.take(i as int)) == Some(idents),
                hasher@ == number_bytes(parent_hash) + strings_bytes(idents),
            decreases roots.len() - i,
        {
            assert(ids.take(i + 1).drop_last() =~= ids.take(i as int));
            assert(ids.take(i + 1).last() == roots[i as int].id);
            match graph.get(roots[i]) {
                Some(entry) => {
                    let ghost written = hasher@;
                    hasher.write_str(entry.ident.as_str());
                    proof {
                        let longer = idents.push(entry.ident@);
                        assert(longer.drop_last() =~= idents);
                        assert(hasher@ =~= number_bytes(parent_hash) + strings_bytes(longer));
                        idents = longer;
                    }
                },
                None => {
                    proof {
                        lemma_root_idents_prefix(graph@, ids, i + 1);
                    }
                    return Err(LookupError { module: roots[i] });
                },
            }
            i += 1;
        }
        assert(ids.take(i as int) =~= ids);
        Ok(hasher.finish())
    }

    /// Whether the chain makes `asset` available. The ancestors are asked
    /// first: where they include the module the answer is `true` at once.
    /// Otherwise the roots of this link are asked in order for the set of
    /// modules that each brings along, and the first that holds the module
    /// settles it. Fails where a lookup fails on the way.
    pub fn includes(&self, graph: &ModuleGraph, asset: ModuleVc) -> (result: Result<
        bool,
        LookupError,
    >)
        ensures
            match result {
                Ok(found) => chain_includes(graph@, self@, asset.id) == Some(found),
                Err(error) => chain_includes(graph@, self@, asset.id) is None && lookup_children(
                    graph@,
                    error.module.id,
                ) is None,
            },
    {
        let mut memo = ChunkableAssetsMemo::new();
        self.includes_memoized(graph, &mut memo, asset)
    }

    /// As [`Self::includes`], with the sets of the roots looked up in `memo`
    /// and remembered there.
    pub fn includes_memoized(
        &self,
        graph: &ModuleGraph,
        memo: &mut ChunkableAssetsMemo,
        asset: ModuleVc,
    ) -> (result: Result<bool, LookupError>)
        requires
            old(memo).valid_for(graph@),
        ensures
            final(memo).valid_for(graph@),
            match result {
                Ok(found) => chain_includes(graph@, self@, asset.id) == Some(found),
                Err(error) => chain_includes(graph@, self@, asset.id) is None && lookup_children(
                    graph@,
                    error.module.id,
                ) is None,
            },
        decreases self@.len(),
    {
        proof {
            self.lemma_not_empty();
        }
        match self.parent() {
            Some(parent) => match parent.includes_memoized(graph, memo, asset) {
                Ok(found) => {
                    if found {
                        return Ok(true);
                    }
                },
                Err(error) => {
                    return Err(error);
                },
            },
            None => {
                assert(self@.drop_last() =~= Seq::<Seq<u64>>::empty());
            },
        }
        assert(chain_includes(graph@, self@.drop_last(), asset.id) == Some(false));
        let roots = self.roots();
        let ghost ids = module_ids(roots@);
        assert(ids.skip(0) =~= ids);
        let mut i: usize = 0;
        while i < roots.len()
            invariant
                i <= roots.len(),
                memo.valid_for(graph@),
                ids == module_ids(roots@),
                chain_includes(graph@, self@, asset.id) == roots_include(graph@, ids, asset.id),
                roots_include(graph@, ids, asset.id) == roots_include(
                    graph@,
                    ids.skip(i as int),
                    asset.id,
                ),
            decreases roots.len() - i,
        {
            assert(ids.skip(i as int)[0] == roots[i as int].id);
            assert(ids.skip(i as int).drop_first() =~= ids.skip(i + 1));
            match memo.contains(graph, roots[i], asset) {
                Ok(found) => {
                    if found {
                        return Ok(true);
                    }
                },
                Err(error) => {
                    return Err(error);
                },
            }
            i += 1;
        }
        assert(ids.skip(i as int) =~= Seq::<u64>::empty());
        Ok(false)
    }
}

/// Candidates whose beginning meets a failing lookup meet a failing lookup.
pub proof fn lemma_new_roots_prefix(
    modules: Map<u64, ModuleEntry>,
    chain: Seq<Seq<u64>>,
    candidates: Seq<u64>,
    count: int,
)
    requires
        0 <= count <= candidates.len(),
        new_roots(modules, chain, candidates.take(count)) is None,
    ensures
        new_roots(modules, chain, candidates) is None,
    decreases candidates.len(),
{
    if count < candidates.len() {
        assert(candidates.drop_last().take(count) =~= candidates.take(count));
        lemma_new_roots_prefix(modules, chain, candidates.drop_last(), count);
    } else {
        assert(candidates.take(count) =~= candidates);
    }
}

/// Roots whose beginning names a module that the graph lacks name a module
/// that the graph lacks.
pub proof fn lemma_root_idents_prefix(modules: Map<u64, ModuleEntry>, roots: Seq<u64>, count: int)
    requires
        0 <= count <= roots.len(),
        root_idents(modules, roots.take(count)) is None,
    ensures
        root_idents(modules, roots) is None,
    decreases roots.len(),
{
    if count < roots.len() {
        assert(roots.drop_last().take(count) =~= roots.take(count));
        lemma_root_idents_prefix(modules, roots.drop_last(), count);
    } else {
        assert(roots.take(count) =~= roots);
    }
}

/// What a chain makes available stays available in every chain that extends
/// it by a link.
pub proof fn lemma_includes_monotonic(
    modules: Map<u64, ModuleEntry>,
    chain: Seq<Seq<u64>>,
    roots: Seq<u64>,
    module: u64,
)
    requires
        chain_includes(modules, chain, module) == Some(true),
    ensures
        chain_includes(modules, chain.push(roots), module) == Some(true),
{
    assert(chain.push(roots).drop_last() =~= chain);
}

/// What a chain makes available stays available in every chain that starts
/// with it.
pub proof fn lemma_includes_monotonic_along(
    modules: Map<u64, ModuleEntry>,
    chain: Seq<Seq<u64>>,
    longer: Seq<Seq<u64>>,
    module: u64,
)
    requires
        chain.len() <= longer.len(),
        longer.take(chain.len() as int) == chain,
        chain_includes(modules, chain, module) == Some(true),
    ensures
        chain_includes(modules, longer, module) == Some(true),
    decreases longer.len(),
{
    if chain.len() < longer.len() {
        assert(longer.drop_last().take(chain.len() as int) =~= longer.take(chain.len() as int));
        lemma_includes_monotonic_along(modules, chain, longer.drop_last(), module);
    } else {
        assert(longer.take(chain.len() as int) =~= longer);
    }
}

/// The roots of a new link are the candidates that the chain does not make
/// available, in the order in which they were given; the chain makes none of them
/// available.
pub proof fn lemma_new_roots_are_the_uncovered(
    modules: Map<u64, ModuleEntry>,
    chain: Seq<Seq<u64>>,
    candidates: Seq<u64>,
)
    requires
        new_roots(modules, chain, candidates) is Some,
    ensures
        ({
            let kept = new_roots(modules, chain, candidates)->Some_0;
            &&& kept == candidates.filter(
                |candidate: u64| chain_includes(modules, chain, candidate) == Some(false),
            )
            &&& forall|k: int|
                0 <= k < kept.len() ==> chain_includes(modules, chain, #[trigger] kept[k]) == Some(
                    false,
                )
            &&& forall|k: int|
                0 <= k < candidates.len() ==> chain_includes(
                    modules,
                    chain,
                    #[trigger] candidates[k],
                ) is Some
        }),
    decreases candidates.len(),
{
    reveal(Seq::filter);
    if candidates.len() > 0 {
        let shorter = candidates.drop_last();
        lemma_new_roots_are_the_uncovered(modules, chain, shorter);
        let kept = new_roots(modules, chain, candidates)->Some_0;
        let fewer = new_roots(modules, chain, shorter)->Some_0;
        assert forall|k: int| 0 <= k < kept.len() implies chain_includes(
            modules,
            chain,
            #[trigger] kept[k],
        ) == Some(false) by {
            if k < fewer.len() {
                assert(kept[k] == fewer[k]);
            }
        }
        assert forall|k: int| 0 <= k < candidates.len() implies chain_includes(
            modules,
            chain,
            #[trigger] candidates[k],
        ) is Some by {
            if k < shorter.len() {
                assert(candidates[k] == shorter[k]);
            }
        }
    }
}

/// Of two candidates of which the chain makes the first available and the
/// second not, only the second becomes a root of the new link.
pub proof fn lemma_covered_candidate_is_dropped(
    modules: Map<u64, ModuleEntry>,
    chain: Seq<Seq<u64>>,
    covered: u64,
    uncovered: u64,
)
    requires
        chain_includes(modules, chain, covered) == Some(true),
        chain_includes(modules, chain, uncovered) == Some(false),
    ensures
        new_roots(modules, chain, seq![covered, uncovered]) == Some(seq![uncovered]),
{
    let both = seq![covered, uncovered];
    let first = seq![covered];
    assert(both.drop_last() =~= first);
    assert(first.drop_last() =~= Seq::<u64>::empty());
    assert(first.last() == covered);
    assert(new_roots(modules, chain, first.drop_last()) == Some(Seq::<u64>::empty()));
    assert(new_roots(modules, chain, first) == Some(Seq::<u64>::empty()));
    assert(both.last() == uncovered);
    assert(Seq::<u64>::empty().push(uncovered) =~= seq![uncovered]);
}

/// A link never answers that it lacks one of its own roots: where the lookups
/// succeed, the chain makes each root of its last link available.
pub proof fn lemma_own_root_is_included(modules: Map<u64, ModuleEntry>, chain: Seq<Seq<u64>>, k: int)
    requires
        modules.dom().finite(),
        chain.len() > 0,
        0 <= k < chain.last().len(),
    ensures
        chain_includes(modules, chain, chain.last()[k]) != Some(false),
{
    lemma_root_is_among(modules, chain.last(), k);
}

/// The roots of a link never answer that they lack one of them.
pub proof fn lemma_root_is_among(modules: Map<u64, ModuleEntry>, roots: Seq<u64>, k: int)
    requires
        modules.dom().finite(),
        0 <= k < roots.len(),
    ensures
        roots_include(modules, roots, roots[k]) != Some(false),
    decreases roots.len(),
{
    if chunkable_assets_of(modules, roots[0]) is Some {
        if k == 0 {
            lemma_root_comes_last(modules, roots[0]);
        } else {
            assert(roots.drop_first()[k - 1] == roots[k]);
            lemma_root_is_among(modules, roots.drop_first(), k - 1);
        }
    }
}

/// An origin with a single root makes that root available, where the lookups
/// on the way succeed.
pub proof fn lemma_origin_includes_its_root(modules: Map<u64, ModuleEntry>, root: u64)
    requires
        modules.dom().finite(),
    ensures
        chain_includes(modules, seq![seq![root]], root) == match chunkable_assets_of(
            modules,
            root,
        ) {
            Some(_) => Some(true),
            None => None,
        },
{
    let chain = seq![seq![root]];
    assert(chain.drop_last() =~= Seq::<Seq<u64>>::empty());
    assert(chain.last() == seq![root]);
    assert(seq![root][0] == root);
    assert(chain_includes(modules, chain.drop_last(), root) == Some(false));
    assert(chain_includes(modules, chain, root) == roots_include(modules, seq![root], root));
    if chunkable_assets_of(modules, root) is Some {
        lemma_root_comes_last(modules, root);
    }
}

/// The hash of a chain depends on the identities along the chain only: two
/// chains with equally many links whose links name the same identities in the
/// same order hash alike, whatever handles stand for the modules.
pub proof fn lemma_equal_identities_hash_alike(
    first_modules: Map<u64, ModuleEntry>,
    first: Seq<Seq<u64>>,
    second_modules: Map<u64, ModuleEntry>,
    second: Seq<Seq<u64>>,
)
    requires
        first.len() == second.len(),
        forall|k: int|
            0 <= k < first.len() ==> root_idents(first_modules, #[trigger] first[k]) == root_idents(
                second_modules,
                second[k],
            ),
    ensures
        chain_hash(first_modules, first) == chain_hash(second_modules, second),
    decreases first.len(),
{
    if first.len() > 0 {
        assert forall|k: int| 0 <= k < first.drop_last().len() implies root_idents(
            first_modules,
            #[trigger] first.drop_last()[k],
        ) == root_idents(second_modules, second.drop_last()[k]) by {
            assert(first.drop_last()[k] == first[k]);
            assert(second.drop_last()[k] == second[k]);
        }
        lemma_equal_identities_hash_alike(
            first_modules,
            first.drop_last(),
            second_modules,
            second.drop_last(),
        );
        assert(first.last() == first[first.len() - 1]);
        assert(second.last() == second[second.len() - 1]);
    }
}

} // verus!
