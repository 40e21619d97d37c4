//! Turns the listing of a source directory into one module declaration per
//! source file: the scan picks and orders the file names, the emitter maps
//! each name to a module identifier.
use vstd::prelude::*;
use vstd::utf8::decode_utf8;

pub mod emit;
pub mod order;
pub mod scan;

use crate::emit::{declares, mod_item, ModItem};
use crate::scan::{
    eligible_stems, entry_views, lemma_listing_order_irrelevant, scan_result, source_file_names, sorted_stems, undecodable_names,
    DirEntry, EntryView, ScanError,
};

verus! {

/// What `dir` returns on a listing `es`, as a relation.
pub open spec fn expansion(es: Seq<EntryView>, r: Result<Vec<ModItem>, ScanError>) -> bool {
    match r {
        Ok(items) => {
            &&& undecodable_names(es).len() == 0
            &&& eligible_stems(es).len() > 0
            &&& items@.len() == sorted_stems(es).len()
            &&& forall|i: int|
                0 <= i < items@.len() ==> declares(
                    #[trigger] items@[i],
                    decode_utf8(sorted_stems(es)[i]),
                )
        },
        Err(e) => scan_result(es, Err(e)),
    }
}

/// The module declarations for a directory listing: one for each source
/// file, in ascending order of file name.
pub fn dir(entries: &Vec<DirEntry>) -> (r: Result<Vec<ModItem>, ScanError>)
    ensures
        expansion(entry_views(entries@), r),
        eligible_stems(entry_views(entries@)).len() == 0 ==> r matches Err(ScanError::Empty),
{
    let ghost es = entry_views(entries@);
    match source_file_names(entries) {
        Ok(names) => {
            let mut items: Vec<ModItem> = Vec::new();
            let mut i: usize = 0;
            while i < names.len()
                invariant
                    scan_result(es, Ok(names)),
                    i <= names@.len(),
                    items@.len() == i,
                    forall|j: int|
                        0 <= j < i ==> declares(
                            #[trigger] items@[j],
                            decode_utf8(sorted_stems(es)[j]),
                        ),
                decreases names@.len() - i,
            {
                let item = mod_item(names[i].clone());
                items.push(item);
                i = i + 1;
            }
            Ok(items)
        },
        Err(e) => Err(e),
    }
}

/// The two outcomes read the same: equal names, identifiers and paths in the same
/// order, or the same error.
pub open spec fn same_output(
    ra: Result<Vec<ModItem>, ScanError>,
    rb: Result<Vec<ModItem>, ScanError>,
) -> bool {
    match (ra, rb) {
        (Ok(x), Ok(y)) => {
            &&& x@.len() == y@.len()
            &&& forall|i: int|
                0 <= i < x@.len() ==> {
                    &&& (#[trigger] x@[i]).name@ == y@[i].name@
                    &&& x@[i].ident@ == y@[i].ident@
                    &&& (x@[i].path is Some <==> y@[i].path is Some)
                    &&& x@[i].path is Some ==> x@[i].path->0@ == y@[i].path->0@
                }
        },
        (Err(ScanError::Utf8(s)), Err(ScanError::Utf8(t))) => s@ == t@,
        (Err(ScanError::Empty), Err(ScanError::Empty)) => true,
        _ => false,
    }
}

/// Running the pipeline twice on a directory whose listing holds the same
/// entries, in whatever order the listing gives them, yields the same
/// output.
pub proof fn lemma_dir_deterministic(
    a: Seq<EntryView>,
    b: Seq<EntryView>,
    ra: Result<Vec<ModItem>, ScanError>,
    rb: Result<Vec<ModItem>, ScanError>,
)
    requires
        a.to_multiset() == b.to_multiset(),
        expansion(a, ra),
        expansion(b, rb),
    ensures
        same_output(ra, rb),
        forall|r: Result<Vec<ModItem>, ScanError>| expansion(a, r) == expansion(b, r),
{
    lemma_listing_order_irrelevant(a, b);
}

} // verus!
