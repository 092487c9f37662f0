//! The trace file that lists what an entry needs at run time.

use crate::asset::AssetVc;
use crate::output::OutputAsset;
use std::rc::Rc;
use vstd::prelude::*;
use vstd::string::StringExecFns;
use vstd::utf8::encode_utf8;
use vstd::utf8::encode_utf8_decode_utf8;

verus! {

/// The trace file of an entry.
pub struct NftJsonAsset {
    entry: AssetVc,
    entry_path: String,
}

/// A shared, immutable cell that holds a trace file.
pub struct NftJsonAssetVc {
    cell: Rc<NftJsonAsset>,
}

impl NftJsonAsset {
    /// The entry whose needs the file lists.
    pub closed spec fn entry(&self) -> AssetVc {
        self.entry
    }

    /// The path of the entry.
    pub closed spec fn entry_path(&self) -> Seq<char> {
        self.entry_path@
    }
}

impl OutputAsset for NftJsonAsset {
    /// The path of the entry followed by `.nft.json`.
    closed spec fn ident_view(&self) -> Seq<char> {
        self.entry_path@ + ".nft.json"@
    }

    fn ident(&self) -> (result: String) {
        String::from_str(self.entry_path.as_str()).concat(".nft.json")
    }
}

impl View for NftJsonAssetVc {
    type V = NftJsonAsset;

    closed spec fn view(&self) -> NftJsonAsset {
        *self.cell
    }
}

impl NftJsonAssetVc {
    /// The trace file of `entry`, which lies at `entry_path`.
    pub fn new(entry: AssetVc, entry_path: String) -> (result: Self)
        ensures
            result@.entry() == entry,
            result@.entry_path() == entry_path@,
            result@.ident_view() == entry_path@ + ".nft.json"@,
    {
        NftJsonAssetVc { cell: Rc::new(NftJsonAsset { entry, entry_path }) }
    }

    /// The trace file in the cell.
    pub fn get(&self) -> (result: &NftJsonAsset)
        ensures
            *result == self@,
    {
        &self.cell
    }
}

/// Whether `first` and `second` agree before position `at`, and `first`
/// ends there or has the smaller byte there.
pub open spec fn smaller_from(first: Seq<u8>, second: Seq<u8>, at: int) -> bool {
    &&& 0 <= at <= first.len()
    &&& at < second.len()
    &&& forall|i: int| 0 <= i < at ==> first[i] == second[i]
    &&& at == first.len() || first[at] < second[at]
}

/// The lexicographic order of byte strings.
pub open spec fn bytes_less(first: Seq<u8>, second: Seq<u8>) -> bool {
    exists|at: int| smaller_from(first, second, at)
}

/// The order of paths: the lexicographic order of their UTF-8 forms.
pub open spec fn path_less(first: Seq<char>, second: Seq<char>) -> bool {
    bytes_less(encode_utf8(first), encode_utf8(second))
}

/// Two byte strings that agree up to a position are equal, or one of them is
/// smaller than the other.
pub proof fn lemma_bytes_comparable(first: Seq<u8>, second: Seq<u8>, at: int)
    requires
        0 <= at <= first.len(),
        at <= second.len(),
        forall|i: int| 0 <= i < at ==> first[i] == second[i],
    ensures
        first == second || bytes_less(first, second) || bytes_less(second, first),
    decreases first.len() - at,
{
    if at == first.len() {
        if at == second.len() {
            assert(first =~= second);
        } else {
            assert(smaller_from(first, second, at));
        }
    } else if at == second.len() {
        assert(smaller_from(second, first, at));
    } else if first[at] < second[at] {
        assert(smaller_from(first, second, at));
    } else if second[at] < first[at] {
        assert(smaller_from(second, first, at));
    } else {
        lemma_bytes_comparable(first, second, at + 1);
    }
}

/// The order of byte strings is transitive.
pub proof fn lemma_bytes_less_transitive(first: Seq<u8>, second: Seq<u8>, third: Seq<u8>)
    requires
        bytes_less(first, second),
        bytes_less(second, third),
    ensures
        bytes_less(first, third),
{
    let low = choose|at: int| smaller_from(first, second, at);
    let high = choose|at: int| smaller_from(second, third, at);
    if low < high {
        assert(smaller_from(first, third, low));
    } else {
        assert(smaller_from(first, third, high));
    }
}

/// Of two different paths one is smaller than the other.
pub proof fn lemma_paths_comparable(first: Seq<char>, second: Seq<char>)
    ensures
        first == second || path_less(first, second) || path_less(second, first),
{
    lemma_bytes_comparable(encode_utf8(first), encode_utf8(second), 0);
    encode_utf8_decode_utf8(first);
    encode_utf8_decode_utf8(second);
}

/// Whether `first` comes before `second` in the order of paths.
pub fn is_path_less(first: &str, second: &str) -> (result: bool)
    ensures
        result == path_less(first@, second@),
{
    let left = first.as_bytes();
    let right = second.as_bytes();
    let mut at: usize = 0;
    while at < left.len() && at < right.len() && left[at] == right[at]
        invariant
            at <= left.len(),
            at <= right.len(),
            forall|i: int| 0 <= i < at ==> left[i] == right[i],
        decreases left.len() - at,
    {
        at += 1;
    }
    let result = if at == left.len() {
        at < right.len()
    } else if at == right.len() {
        false
    } else {
        left[at] < right[at]
    };
    proof {
        if result {
            assert(smaller_from(left@, right@, at as int));
        }
        if bytes_less(left@, right@) {
            let other = choose|other: int| smaller_from(left@, right@, other);
            if other < at {
                assert(left[other] == right[other]);
            } else if other > at {
                assert(left[at as int] == right[at as int]);
            }
        }
    }
    result
}

/// Whether the paths grow strictly: the list is sorted and holds no path
/// twice.
pub open spec fn strictly_sorted(files: Seq<String>) -> bool {
    forall|i: int, j: int| 0 <= i < j < files.len() ==> path_less(files[i]@, files[j]@)
}

/// Whether the list holds `path`.
pub open spec fn lists_path(files: Seq<String>, path: Seq<char>) -> bool {
    exists|i: int| 0 <= i < files.len() && (#[trigger] files[i])@ == path
}

/// Puts `path` in its place in a sorted list, unless the list holds it.
pub fn insert_sorted(files: &mut Vec<String>, path: String)
    requires
        strictly_sorted(old(files)@),
    ensures
        strictly_sorted(final(files)@),
        forall|other: Seq<char>|
            lists_path(final(files)@, other) <==> lists_path(old(files)@, other) || other
                == path@,
{
    let ghost before = files@;
    let mut at: usize = 0;
    while at < files.len() && is_path_less(files[at].as_str(), path.as_str())
        invariant
            at <= files.len(),
            files@ == before,
            forall|i: int| 0 <= i < at ==> path_less((#[trigger] files[i])@, path@),
        decreases files.len() - at,
    {
        at += 1;
    }
    if at < files.len() && files[at] == path {
        assert forall|other: Seq<char>|
            lists_path(files@, other) <==> lists_path(before, other) || other == path@ by {
            if other == path@ {
                assert(files[at as int]@ == other);
            }
        }
    } else {
        files.insert(at, path);
        let ghost after = files@;
        proof {
            assert forall|i: int, j: int| 0 <= i < j < after.len() implies path_less(
                after[i]@,
                after[j]@,
            ) by {
                if j < at {
                    assert(after[i] == before[i] && after[j] == before[j]);
                } else if j == at {
                    assert(after[i] == before[i]);
                } else {
                    assert(after[j] == before[j - 1]);
                    if i < at {
                        assert(after[i] == before[i]);
                    } else if i > at {
                        assert(after[i] == before[i - 1]);
                    } else {
                        assert(before[at as int]@ != path@);
                        assert(!path_less(before[at as int]@, path@));
                        lemma_paths_comparable(before[at as int]@, path@);
                        if at < j - 1 {
                            assert(path_less(before[at as int]@, before[j - 1]@));
                            lemma_bytes_less_transitive(
                                encode_utf8(path@),
                                encode_utf8(before[at as int]@),
                                encode_utf8(before[j - 1]@),
                            );
                        }
                    }
                }
            }
            assert forall|other: Seq<char>|
                lists_path(after, other) <==> lists_path(before, other) || other == path@ by {
                if lists_path(after, other) {
                    let i = choose|i: int| 0 <= i < after.len() && (#[trigger] after[i])@ == other;
                    if i < at {
                        assert(before[i]@ == other);
                    } else if i > at {
                        assert(before[i - 1]@ == other);
                    }
                }
                if lists_path(before, other) {
                    let i = choose|i: int|
                        0 <= i < before.len() && (#[trigger] before[i])@ == other;
                    if i < at {
                        assert(after[i]@ == other);
                    } else {
                        assert(after[i + 1]@ == other);
                    }
                }
                if other == path@ {
                    assert(after[at as int]@ == other);
                }
            }
        }
    }
}

/// Whether an asset has the relative path `path`.
pub open spec fn lies_at(relative_path: Option<String>, path: Seq<char>) -> bool {
    relative_path matches Some(found) && found@ == path
}

/// Whether one of the first `count` assets lies at `path` relative to the
/// directory of the entry.
pub open spec fn is_traced(
    relative_paths: Seq<Option<String>>,
    count: int,
    self_path: Seq<char>,
    path: Seq<char>,
) -> bool {
    path != self_path && exists|k: int|
        0 <= k < count && #[trigger] lies_at(relative_paths[k], path)
}

/// The files that a trace file lists: the paths of the assets that the entry
/// needs, relative to the directory of the entry, without the entry's own
/// path, sorted and each once. An asset outside that directory is left out,
/// and nothing is listed where the entry itself has no such path.
pub fn nft_json_files(self_path: Option<&String>, relative_paths: &Vec<Option<String>>) -> (files:
    Vec<String>)
    ensures
        strictly_sorted(files@),
        match self_path {
            Some(own) => forall|path: Seq<char>|
                lists_path(files@, path) <==> is_traced(
                    relative_paths@,
                    relative_paths@.len() as int,
                    own@,
                    path,
                ),
            None => files@.len() == 0,
        },
{
    let mut files: Vec<String> = Vec::new();
    if let Some(own) = self_path {
        let mut at: usize = 0;
        while at < relative_paths.len()
            invariant
                at <= relative_paths.len(),
                strictly_sorted(files@),
                forall|path: Seq<char>|
                    lists_path(files@, path) <==> is_traced(
                        relative_paths@,
                        at as int,
                        own@,
                        path,
                    ),
            decreases relative_paths.len() - at,
        {
            let ghost before = files@;
            let ghost added: bool;
            match &relative_paths[at] {
                Some(found) => {
                    if *found == *own {
                        proof {
                            added = false;
                        }
                    } else {
                        insert_sorted(&mut files, found.clone());
                        proof {
                            added = true;
                        }
                    }
                },
                None => {
                    proof {
                        added = false;
                    }
                },
            }
            assert forall|path: Seq<char>|
                lists_path(files@, path) <==> is_traced(
                    relative_paths@,
                    at + 1,
                    own@,
                    path,
                ) by {
                let here = path != own@ && lies_at(relative_paths[at as int], path);
                assert(lists_path(before, path) <==> is_traced(
                    relative_paths@,
                    at as int,
                    own@,
                    path,
                ));
                assert(lists_path(files@, path) <==> lists_path(before, path) || here) by {
                    if added {
                        assert(here <==> path == relative_paths[at as int]->Some_0@);
                    } else {
                        assert(!here);
                        assert(files@ == before);
                    }
                }
                if is_traced(relative_paths@, at + 1, own@, path) {
                    let k = choose|k: int|
                        0 <= k < at + 1 && #[trigger] lies_at(relative_paths[k], path);
                    if k < at {
                        assert(is_traced(relative_paths@, at as int, own@, path));
                    }
                }
                if is_traced(relative_paths@, at as int, own@, path) {
                    let k = choose|k: int|
                        0 <= k < at && #[trigger] lies_at(relative_paths[k], path);
                    assert(is_traced(relative_paths@, at + 1, own@, path));
                }
                if here {
                    assert(is_traced(relative_paths@, at + 1, own@, path));
                }
            }
            at += 1;
        }
    }
    files
}

} // verus!
