//! Picking the source files out of a directory listing.
use vstd::prelude::*;
use vstd::multiset::Multiset;
use vstd::string::*;
use vstd::utf8::{decode_utf8, valid_utf8};

use crate::order::{is_sorted, lemma_sort_bytes, lemma_sorted_unique, sort_byte_strings, sort_bytes, views};

verus! {

/// ASCII codes of the letters that reserved names and the extension use.
pub const DOT: u8 = 46;
pub const LOWER_B: u8 = 98;
pub const LOWER_D: u8 = 100;
pub const LOWER_I: u8 = 105;
pub const LOWER_L: u8 = 108;
pub const LOWER_M: u8 = 109;
pub const LOWER_O: u8 = 111;
pub const LOWER_R: u8 = 114;
pub const LOWER_S: u8 = 115;

/// One entry of a directory listing: its raw name, and whether it is a
/// regular file once links are followed.
#[derive(Debug, Clone, PartialEq, Eq)]
pub struct DirEntry {
    pub name: Vec<u8>,
    pub is_file: bool,
}

/// What a directory entry holds.
pub struct EntryView {
    pub name: Seq<u8>,
    pub is_file: bool,
}

impl View for DirEntry {
    type V = EntryView;

    open spec fn view(&self) -> EntryView {
        EntryView { name: self.name@, is_file: self.is_file }
    }
}

/// Why a directory yields no module declarations.
#[derive(Debug, Clone, PartialEq, Eq)]
pub enum ScanError {
    /// The directory could not be listed, or an entry could not be inspected.
    Io(String),
    /// A source file's name is not valid UTF-8; holds a lossy rendering of it.
    Utf8(String),
    /// The directory holds no source file.
    Empty,
}

pub open spec fn entry_views(es: Seq<DirEntry>) -> Seq<EntryView> {
    es.map_values(|e: DirEntry| e@)
}

/// The extension of a source file, with its dot.
pub open spec fn source_suffix() -> Seq<u8> {
    seq![DOT, LOWER_R, LOWER_S]
}

/// Names that stand for the directory's own root module.
pub open spec fn is_reserved(n: Seq<u8>) -> bool {
    ||| n == seq![LOWER_M, LOWER_O, LOWER_D, DOT, LOWER_R, LOWER_S]
    ||| n == seq![LOWER_L, LOWER_I, LOWER_B, DOT, LOWER_R, LOWER_S]
    ||| n == seq![LOWER_L, LOWER_I, LOWER_B]
}

/// The name ends in the source extension after a non-empty stem.
pub open spec fn has_source_extension(n: Seq<u8>) -> bool {
    n.len() >= 4 && n.subrange(n.len() - 3, n.len() as int) == source_suffix()
}

pub open spec fn is_eligible(e: EntryView) -> bool {
    e.is_file && !is_reserved(e.name) && has_source_extension(e.name)
}

/// The name without its extension.
pub open spec fn stem(n: Seq<u8>) -> Seq<u8> {
    n.subrange(0, n.len() - 3)
}

/// The stems of the eligible entries, in listing order.
pub open spec fn eligible_stems(es: Seq<EntryView>) -> Seq<Seq<u8>>
    decreases es.len(),
{
    if es.len() == 0 {
        Seq::empty()
    } else {
        let rest = eligible_stems(es.drop_last());
        if is_eligible(es.last()) {
            rest.push(stem(es.last().name))
        } else {
            rest
        }
    }
}

/// The full names of the eligible entries whose stem is not UTF-8 text, in
/// listing order.
pub open spec fn undecodable_names(es: Seq<EntryView>) -> Seq<Seq<u8>>
    decreases es.len(),
{
    if es.len() == 0 {
        Seq::empty()
    } else {
        let rest = undecodable_names(es.drop_last());
        if is_eligible(es.last()) && !valid_utf8(stem(es.last().name)) {
            rest.push(es.last().name)
        } else {
            rest
        }
    }
}

/// The name to report for `es`: the least undecodable one.
pub open spec fn first_undecodable(es: Seq<EntryView>) -> Seq<u8> {
    sort_bytes(undecodable_names(es))[0]
}

/// The stems of the eligible entries, in ascending order.
pub open spec fn sorted_stems(es: Seq<EntryView>) -> Seq<Seq<u8>> {
    sort_bytes(eligible_stems(es))
}

/// What `source_file_names` returns on `es`, as a relation.
pub open spec fn scan_result(es: Seq<EntryView>, r: Result<Vec<String>, ScanError>) -> bool {
    match r {
        Ok(names) => {
            &&& undecodable_names(es).len() == 0
            &&& eligible_stems(es).len() > 0
            &&& names@.len() == sorted_stems(es).len()
            &&& forall|i: int|
                0 <= i < names@.len() ==> #[trigger] names@[i]@ == decode_utf8(sorted_stems(es)[i])
        },
        Err(ScanError::Utf8(s)) => {
            &&& undecodable_names(es).len() > 0
            &&& s@ == lossy_text(first_undecodable(es))
        },
        Err(ScanError::Empty) => undecodable_names(es).len() == 0 && eligible_stems(es).len() == 0,
        Err(ScanError::Io(_)) => false,
    }
}

impl ScanError {
    /// The diagnostic that reports this error.
    pub fn message(&self) -> (r: String)
        ensures
            r@ == match self {
                ScanError::Io(m) => m@,
                ScanError::Utf8(n) => "unsupported non-utf8 file name: "@ + n@,
                ScanError::Empty => "no source files found"@,
            },
    {
        match self {
            ScanError::Io(m) => m.clone(),
            ScanError::Utf8(n) => {
                let mut r = String::from_str("unsupported non-utf8 file name: ");
                r.append(n.as_str());
                r
            },
            ScanError::Empty => String::from_str("no source files found"),
        }
    }
}

/// What `String::from_utf8_lossy` makes of a byte string.
pub uninterp spec fn lossy_text(b: Seq<u8>) -> Seq<char>;

/// Relies on `std::str::from_utf8`: it succeeds exactly on valid UTF-8, and
/// the text is the characters that the bytes encode.
#[verifier::external_body]
fn utf8_text(b: &[u8]) -> (r: Option<String>)
    ensures
        r is Some <==> valid_utf8(b@),
        r is Some ==> r->0@ == decode_utf8(b@),
{
    match std::str::from_utf8(b) {
        Ok(s) => Some(s.to_string()),
        Err(_) => None,
    }
}

/// Relies on `String::from_utf8_lossy`: a rendering of any byte string as
/// text, with a replacement character for each invalid sequence.
#[verifier::external_body]
fn lossy_string(b: &[u8]) -> (r: String)
    ensures
        r@ == lossy_text(b@),
{
    String::from_utf8_lossy(b).into_owned()
}

fn is_reserved_name(n: &[u8]) -> (r: bool)
    ensures
        r == is_reserved(n@),
{
    let l = n.len();
    let stem_lib = l >= 3 && n[0] == LOWER_L && n[1] == LOWER_I && n[2] == LOWER_B;
    let stem_mod = l >= 3 && n[0] == LOWER_M && n[1] == LOWER_O && n[2] == LOWER_D;
    let r = if l == 6 {
        (stem_lib || stem_mod) && n[3] == DOT && n[4] == LOWER_R && n[5] == LOWER_S
    } else {
        l == 3 && stem_lib
    };
    proof {
        if r {
            if l == 6 && stem_lib {
                assert(n@ =~= seq![LOWER_L, LOWER_I, LOWER_B, DOT, LOWER_R, LOWER_S]);
            } else if l == 6 {
                assert(n@ =~= seq![LOWER_M, LOWER_O, LOWER_D, DOT, LOWER_R, LOWER_S]);
            } else {
                assert(n@ =~= seq![LOWER_L, LOWER_I, LOWER_B]);
            }
        }
    }
    r
}

fn has_source_extension_name(n: &[u8]) -> (r: bool)
    ensures
        r == has_source_extension(n@),
{
    let l = n.len();
    let r = l >= 4 && n[l - 3] == DOT && n[l - 2] == LOWER_R && n[l - 1] == LOWER_S;
    proof {
        if r {
            assert(n@.subrange(l - 3, l as int) =~= source_suffix());
        } else if l >= 4 && n@.subrange(l - 3, l as int) == source_suffix() {
            assert(n@.subrange(l - 3, l as int)[0] == n@[l - 3]);
            assert(n@.subrange(l - 3, l as int)[1] == n@[l - 2]);
            assert(n@.subrange(l - 3, l as int)[2] == n@[l - 1]);
        }
    }
    r
}

fn stem_of(n: &[u8]) -> (r: Vec<u8>)
    requires
        n@.len() >= 3,
    ensures
        r@ == stem(n@),
{
    let mut r: Vec<u8> = Vec::new();
    let mut i: usize = 0;
    while i < n.len() - 3
        invariant
            n@.len() >= 3,
            i <= n@.len() - 3,
            r@ == n@.subrange(0, i as int),
        decreases n@.len() - 3 - i,
    {
        r.push(n[i]);
        assert(r@ =~= n@.subrange(0, i + 1));
        i = i + 1;
    }
    r
}

proof fn lemma_undecodable_within_eligible(es: Seq<EntryView>)
    ensures
        undecodable_names(es).len() <= eligible_stems(es).len(),
        undecodable_names(es).len() == 0 ==> forall|k: int|
            0 <= k < eligible_stems(es).len() ==> valid_utf8(#[trigger] eligible_stems(es)[k]),
    decreases es.len(),
{
    if es.len() > 0 {
        lemma_undecodable_within_eligible(es.drop_last());
    }
}

/// Lists the stems of the source files of a directory, in ascending order,
/// as text. Fails on the least source file name that is not UTF-8, and on a
/// listing without source files.
pub fn source_file_names(entries: &Vec<DirEntry>) -> (r: Result<Vec<String>, ScanError>)
    ensures
        scan_result(entry_views(entries@), r),
        eligible_stems(entry_views(entries@)).len() == 0 ==> r matches Err(ScanError::Empty),
{
    let ghost ev = entry_views(entries@);
    let mut stems: Vec<Vec<u8>> = Vec::new();
    let mut failures: Vec<Vec<u8>> = Vec::new();
    let mut i: usize = 0;
    assert(ev.take(0) =~= Seq::<EntryView>::empty());
    while i < entries.len()
        invariant
            ev == entry_views(entries@),
            i <= entries@.len(),
            views(stems@) == eligible_stems(ev.take(i as int)),
            views(failures@) == undecodable_names(ev.take(i as int)),
        decreases entries@.len() - i,
    {
        let e = &entries[i];
        assert(ev.take(i + 1).drop_last() =~= ev.take(i as int));
        assert(ev.take(i + 1).last() == e@);
        if e.is_file && !is_reserved_name(e.name.as_slice()) && has_source_extension_name(e.name.as_slice()) {
            let st = stem_of(e.name.as_slice());
            let text = utf8_text(st.as_slice());
            if text.is_none() {
                failures.push(e.name.clone());
                assert(views(failures@) =~= undecodable_names(ev.take(i as int)).push(e.name@));
            }
            stems.push(st);
            assert(views(stems@) =~= eligible_stems(ev.take(i as int)).push(st@));
        }
        i = i + 1;
    }
    assert(ev.take(entries@.len() as int) =~= ev);
    proof {
        lemma_undecodable_within_eligible(ev);
    }
    let failures = sort_byte_strings(failures);
    if failures.len() > 0 {
        return Err(ScanError::Utf8(lossy_string(failures[0].as_slice())));
    }
    proof {
        broadcast use vstd::seq_lib::group_to_multiset_ensures;
        assert(views(failures@).len() == 0);
        assert(views(failures@).to_multiset().len() == 0);
        assert(undecodable_names(ev).to_multiset().len() == 0);
    }
    if stems.len() == 0 {
        return Err(ScanError::Empty);
    }
    let sorted = sort_byte_strings(stems);
    let mut names: Vec<String> = Vec::new();
    let mut k: usize = 0;
    while k < sorted.len()
        invariant
            views(sorted@) == sorted_stems(ev),
            undecodable_names(ev).len() == 0,
            forall|j: int|
                0 <= j < eligible_stems(ev).len() ==> valid_utf8(#[trigger] eligible_stems(ev)[j]),
            is_sorted(views(sorted@)),
            views(sorted@).to_multiset() == eligible_stems(ev).to_multiset(),
            k <= sorted@.len(),
            names@.len() == k,
            forall|j: int| 0 <= j < k ==> #[trigger] names@[j]@ == decode_utf8(sorted_stems(ev)[j]),
        decreases sorted@.len() - k,
    {
        proof {
            broadcast use vstd::seq_lib::group_to_multiset_ensures;
            let x = views(sorted@)[k as int];
            assert(views(sorted@).contains(x));
            assert(eligible_stems(ev).to_multiset().count(x) > 0);
            assert(eligible_stems(ev).contains(x));
        }
        let text = utf8_text(sorted[k].as_slice());
        names.push(text.unwrap());
        k = k + 1;
    }
    Ok(names)
}

/// A listing of regular source files, none of them reserved, yields the
/// stems of all its files, in ascending order.
pub proof fn lemma_plain_source_listing(es: Seq<EntryView>)
    requires
        forall|k: int| 0 <= k < es.len() ==> is_eligible(#[trigger] es[k]),
    ensures
        eligible_stems(es) == es.map_values(|e: EntryView| stem(e.name)),
        is_sorted(sorted_stems(es)),
        sorted_stems(es).to_multiset() == es.map_values(|e: EntryView| stem(e.name)).to_multiset(),
    decreases es.len(),
{
    if es.len() > 0 {
        let p = es.drop_last();
        assert forall|k: int| 0 <= k < p.len() implies is_eligible(#[trigger] p[k]) by {
            assert(p[k] == es[k]);
        }
        lemma_plain_source_listing(p);
        assert(es.map_values(|e: EntryView| stem(e.name)) =~= p.map_values(
            |e: EntryView| stem(e.name),
        ).push(stem(es.last().name)));
    } else {
        assert(es.map_values(|e: EntryView| stem(e.name)) =~= Seq::<Seq<u8>>::empty());
    }
    lemma_sort_bytes(eligible_stems(es));
}

/// The regular file with name `n`.
pub open spec fn file_entry(n: Seq<u8>) -> EntryView {
    EntryView { name: n, is_file: true }
}

proof fn lemma_name_is_stem_and_suffix(n: Seq<u8>)
    requires
        has_source_extension(n),
    ensures
        n == stem(n) + source_suffix(),
{
    assert(n =~= n.subrange(0, n.len() - 3) + n.subrange(n.len() - 3, n.len() as int));
}

proof fn lemma_stem_count(es: Seq<EntryView>, x: Seq<u8>)
    ensures
        eligible_stems(es).to_multiset().count(x) == if is_eligible(
            file_entry(x + source_suffix()),
        ) {
            es.to_multiset().count(file_entry(x + source_suffix()))
        } else {
            0
        },
    decreases es.len(),
{
    broadcast use vstd::seq_lib::group_to_multiset_ensures;

    let t = file_entry(x + source_suffix());
    assert(stem(t.name) =~= x);
    if es.len() > 0 {
        let p = es.drop_last();
        let e = es.last();
        lemma_stem_count(p, x);
        assert(es =~= p.push(e));
        if is_eligible(e) && stem(e.name) == x {
            lemma_name_is_stem_and_suffix(e.name);
        }
    } else {
        assert(es.to_multiset() =~= Multiset::empty());
        assert(eligible_stems(es).to_multiset() =~= Multiset::empty());
    }
}

proof fn lemma_undecodable_count(es: Seq<EntryView>, n: Seq<u8>)
    ensures
        undecodable_names(es).to_multiset().count(n) == if is_eligible(file_entry(n)) && !valid_utf8(
            stem(n),
        ) {
            es.to_multiset().count(file_entry(n))
        } else {
            0
        },
    decreases es.len(),
{
    broadcast use vstd::seq_lib::group_to_multiset_ensures;

    if es.len() > 0 {
        let p = es.drop_last();
        let e = es.last();
        lemma_undecodable_count(p, n);
        assert(es =~= p.push(e));
    } else {
        assert(es.to_multiset() =~= Multiset::empty());
        assert(undecodable_names(es).to_multiset() =~= Multiset::empty());
    }
}

/// Two listings that hold the same entries, in whatever order, are scanned
/// alike: the outcome does not depend on the order of the listing.
pub proof fn lemma_listing_order_irrelevant(a: Seq<EntryView>, b: Seq<EntryView>)
    requires
        a.to_multiset() == b.to_multiset(),
    ensures
        sorted_stems(a) == sorted_stems(b),
        sort_bytes(undecodable_names(a)) == sort_bytes(undecodable_names(b)),
        forall|r: Result<Vec<String>, ScanError>| scan_result(a, r) == scan_result(b, r),
{
    broadcast use vstd::seq_lib::group_to_multiset_ensures;

    assert(eligible_stems(a).to_multiset() =~= eligible_stems(b).to_multiset()) by {
        assert forall|x: Seq<u8>|
            eligible_stems(a).to_multiset().count(x) == eligible_stems(b).to_multiset().count(
                x,
            ) by {
            lemma_stem_count(a, x);
            lemma_stem_count(b, x);
        }
    }
    assert(undecodable_names(a).to_multiset() =~= undecodable_names(b).to_multiset()) by {
        assert forall|x: Seq<u8>|
            undecodable_names(a).to_multiset().count(x) == undecodable_names(
                b,
            ).to_multiset().count(x) by {
            lemma_undecodable_count(a, x);
            lemma_undecodable_count(b, x);
        }
    }
    lemma_sort_bytes(eligible_stems(a));
    lemma_sort_bytes(eligible_stems(b));
    lemma_sorted_unique(sorted_stems(a), sorted_stems(b));
    lemma_sort_bytes(undecodable_names(a));
    lemma_sort_bytes(undecodable_names(b));
    lemma_sorted_unique(sort_bytes(undecodable_names(a)), sort_bytes(undecodable_names(b)));
    assert(eligible_stems(a).to_multiset().len() == eligible_stems(b).to_multiset().len());
    assert(undecodable_names(a).to_multiset().len() == undecodable_names(b).to_multiset().len());
}

} // verus!
