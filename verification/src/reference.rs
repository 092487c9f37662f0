//! References between modules, and the children that they contribute to the
//! chunkable part of the module graph.

use crate::chunk::ChunkableModuleReference;
use crate::index_set::OrderedIdSet;
use crate::module::module_ids;
use vstd::prelude::*;

verus! {

/// An edge from a module to the modules that it depends on.
pub struct ModuleReference {
    /// The chunking capability of the reference; `None` where it has none.
    pub chunkable: Option<ChunkableModuleReference>,
}

impl ModuleReference {
    /// The chunking capability of the reference, if it has one.
    pub fn as_chunkable(&self) -> (result: Option<&ChunkableModuleReference>)
        ensures
            result == match self.chunkable {
                Some(chunkable) => Some(&chunkable),
                None => None,
            },
    {
        self.chunkable.as_ref()
    }

    /// Whether the reference has the chunking capability with a qualifying
    /// chunking type.
    pub open spec fn qualifies(self) -> bool {
        self.chunkable matches Some(chunkable) && chunkable.chunking_type.qualifies()
    }

    /// The targets that the reference contributes: those of a qualifying
    /// reference, nothing for any other. `None` where a qualifying reference
    /// cannot be resolved.
    pub open spec fn qualifying_targets(self) -> Option<Seq<u64>> {
        if self.qualifies() {
            match self.chunkable->Some_0.targets {
                Some(targets) => Some(module_ids(targets@)),
                None => None,
            }
        } else {
            Some(Seq::empty())
        }
    }
}

/// The targets that a list of references contributes, in order and with
/// repetitions. `None` where one of the qualifying references cannot be
/// resolved.
pub open spec fn qualifying_targets_of(references: Seq<ModuleReference>) -> Option<Seq<u64>>
    decreases references.len(),
{
    if references.len() == 0 {
        Some(Seq::empty())
    } else {
        match (
            qualifying_targets_of(references.drop_last()),
            references.last().qualifying_targets(),
        ) {
            (Some(before), Some(targets)) => Some(before + targets),
            _ => None,
        }
    }
}

/// The values of `ids` in the order of their first occurrence.
pub open spec fn first_occurrences(ids: Seq<u64>) -> Seq<u64>
    decreases ids.len(),
{
    if ids.len() == 0 {
        Seq::empty()
    } else {
        let before = first_occurrences(ids.drop_last());
        if before.contains(ids.last()) {
            before
        } else {
            before.push(ids.last())
        }
    }
}

/// The children that a list of references gives its module: the qualifying
/// targets, each once, in the order of first occurrence.
pub open spec fn chunkable_children_of(references: Seq<ModuleReference>) -> Option<Seq<u64>> {
    match qualifying_targets_of(references) {
        Some(targets) => Some(first_occurrences(targets)),
        None => None,
    }
}

/// A list of references whose beginning cannot be resolved cannot be
/// resolved.
pub proof fn lemma_unresolved_prefix(references: Seq<ModuleReference>, count: int)
    requires
        0 <= count <= references.len(),
        qualifying_targets_of(references.take(count)) is None,
    ensures
        qualifying_targets_of(references) is None,
    decreases references.len(),
{
    if count < references.len() {
        assert(references.drop_last().take(count) =~= references.take(count));
        lemma_unresolved_prefix(references.drop_last(), count);
    } else {
        assert(references.take(count) =~= references);
    }
}

/// The first occurrences of a sequence hold the same values as the sequence,
/// each once.
pub proof fn lemma_first_occurrences(ids: Seq<u64>)
    ensures
        first_occurrences(ids).no_duplicates(),
        forall|id: u64| first_occurrences(ids).contains(id) <==> ids.contains(id),
    decreases ids.len(),
{
    if ids.len() > 0 {
        let before = first_occurrences(ids.drop_last());
        lemma_first_occurrences(ids.drop_last());
        if !before.contains(ids.last()) {
            crate::index_set::lemma_push_keeps_no_duplicates(before, ids.last());
        }
        assert forall|id: u64| first_occurrences(ids).contains(id) <==> ids.contains(id) by {
            let all = first_occurrences(ids);
            assert(before.contains(id) <==> ids.drop_last().contains(id));
            if ids.contains(id) && !all.contains(id) {
                let i = choose|i: int| 0 <= i < ids.len() && ids[i] == id;
                if i < ids.len() - 1 {
                    assert(ids.drop_last()[i] == id);
                    let j = choose|j: int| 0 <= j < before.len() && before[j] == id;
                    assert(all[j] == id);
                } else {
                    if before.contains(id) {
                        let j = choose|j: int| 0 <= j < before.len() && before[j] == id;
                        assert(all[j] == id);
                    } else {
                        assert(all[before.len() as int] == id);
                    }
                }
            }
            if all.contains(id) && !ids.contains(id) {
                let j = choose|j: int| 0 <= j < all.len() && all[j] == id;
                if j < before.len() {
                    assert(before[j] == id);
                    let i = choose|i: int|
                        0 <= i < ids.drop_last().len() && ids.drop_last()[i] == id;
                    assert(ids[i] == id);
                } else {
                    assert(ids[ids.len() - 1] == id);
                }
            }
        }
    }
}

/// Whether one of the first `count` references qualifies and has `id` among
/// its targets.
pub open spec fn is_qualifying_target(references: Seq<ModuleReference>, count: int, id: u64) -> bool {
    exists|k: int|
        0 <= k < count && (#[trigger] references[k]).qualifying_targets() is Some
            && references[k].qualifying_targets()->Some_0.contains(id)
}

/// The targets that a list of references contributes are the targets of its
/// qualifying references: a reference without the chunking capability or
/// with another chunking type contributes nothing.
pub proof fn lemma_only_qualifying_targets(references: Seq<ModuleReference>, id: u64)
    requires
        qualifying_targets_of(references) is Some,
    ensures
        qualifying_targets_of(references)->Some_0.contains(id) <==> is_qualifying_target(
            references,
            references.len() as int,
            id,
        ),
        chunkable_children_of(references)->Some_0.contains(id) <==> is_qualifying_target(
            references,
            references.len() as int,
            id,
        ),
    decreases references.len(),
{
    let all = qualifying_targets_of(references)->Some_0;
    lemma_first_occurrences(all);
    if references.len() > 0 {
        let shorter = references.drop_last();
        let before = qualifying_targets_of(shorter)->Some_0;
        let targets = references.last().qualifying_targets()->Some_0;
        lemma_only_qualifying_targets(shorter, id);
        if all.contains(id) {
            let i = choose|i: int| 0 <= i < all.len() && all[i] == id;
            if i < before.len() {
                assert(before[i] == id);
                let k = choose|k: int|
                    0 <= k < shorter.len() && (#[trigger] shorter[k]).qualifying_targets() is Some
                        && shorter[k].qualifying_targets()->Some_0.contains(id);
                assert(references[k] == shorter[k]);
            } else {
                assert(targets[i - before.len()] == id);
                assert(references[references.len() - 1] == references.last());
            }
        }
        if is_qualifying_target(references, references.len() as int, id) {
            let k = choose|k: int|
                0 <= k < references.len() && (#[trigger] references[k]).qualifying_targets()
                    is Some && references[k].qualifying_targets()->Some_0.contains(id);
            if k < shorter.len() {
                assert(shorter[k] == references[k]);
                assert(before.contains(id));
                let i = choose|i: int| 0 <= i < before.len() && before[i] == id;
                assert(all[i] == id);
            } else {
                let i = choose|i: int| 0 <= i < targets.len() && targets[i] == id;
                assert(all[before.len() + i] == id);
            }
        }
    }
}

/// The children that `references` give their module, or `None` where one of
/// the qualifying references cannot be resolved.
pub fn chunkable_children(references: &Vec<ModuleReference>) -> (result: Option<OrderedIdSet>)
    ensures
        match result {
            Some(children) => chunkable_children_of(references@) == Some(children@)
                && children.wf(),
            None => chunkable_children_of(references@) is None,
        },
{
    let mut children = OrderedIdSet::new();
    let ghost mut flat: Seq<u64> = Seq::empty();
    let mut i: usize = 0;
    while i < references.len()
        invariant
            i <= references.len(),
            qualifying_targets_of(references@.take(i as int)) == Some(flat),
            children@ == first_occurrences(flat),
            children.wf(),
        decreases references.len() - i,
    {
        let ghost seen = references@.take(i as int);
        let ghost next = references@.take(i + 1);
        assert(next.drop_last() =~= seen);
        assert(next.last() == references@[i as int]);
        if let Some(chunkable) = references[i].as_chunkable() {
            if chunkable.chunking_type.is_qualifying() {
                match &chunkable.targets {
                    None => {
                        proof {
                            lemma_unresolved_prefix(references@, i + 1);
                        }
                        return None;
                    },
                    Some(targets) => {
                        let ghost base = flat;
                        let mut j: usize = 0;
                        while j < targets.len()
                            invariant
                                j <= targets.len(),
                                flat == base + module_ids(targets@).take(j as int),
                                children@ == first_occurrences(flat),
                                children.wf(),
                            decreases targets.len() - j,
                        {
                            let target = targets[j];
                            let ghost longer = flat.push(target.id);
                            assert(longer.drop_last() =~= flat);
                            assert(longer =~= base + module_ids(targets@).take(j + 1));
                            children.insert(target.id);
                            proof {
                                flat = longer;
                            }
                            j += 1;
                        }
                        assert(module_ids(targets@).take(j as int) =~= module_ids(targets@));
                    },
                }
            } else {
                assert(flat + Seq::<u64>::empty() =~= flat);
            }
        } else {
            assert(flat + Seq::<u64>::empty() =~= flat);
        }
        i += 1;
    }
    assert(references@.take(i as int) =~= references@);
    Some(children)
}

} // verus!
