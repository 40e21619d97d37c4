//! Mapping a source file's stem to the module that declares it.
use vstd::prelude::*;
use vstd::string::*;

verus! {

/// The declaration of one module: `mod <ident>;` followed by
/// `pub use <ident>::*;`, with `#[path = "<path>"]` on the `mod` item when
/// the identifier does not name the file by itself.
#[derive(Debug, Clone, PartialEq, Eq)]
pub struct ModItem {
    /// The file stem that the declaration is for.
    pub name: String,
    pub ident: String,
    pub path: Option<String>,
}

/// The name with every hyphen turned into an underscore.
pub open spec fn hyphens_replaced(s: Seq<char>) -> Seq<char> {
    Seq::new(s.len(), |i: int| if s[i] == '-' { '_' } else { s[i] })
}

pub open spec fn is_ascii_digit(c: char) -> bool {
    48 <= (c as u32) <= 57
}

/// The identifier of the module for a file stem: hyphens become underscores,
/// and a leading digit gets an underscore in front.
pub open spec fn module_ident(name: Seq<char>) -> Seq<char> {
    let m = hyphens_replaced(name);
    if m.len() > 0 && is_ascii_digit(m[0]) {
        seq!['_'] + m
    } else {
        m
    }
}

/// The file name that the `path` attribute names: the stem and `.rs`.
pub open spec fn source_file(name: Seq<char>) -> Seq<char> {
    name + seq!['.', 'r', 's']
}

/// `item` declares the module for the file stem `name`.
pub open spec fn declares(item: ModItem, name: Seq<char>) -> bool {
    &&& item.name@ == name
    &&& item.ident@ == module_ident(name)
    &&& (item.path is Some <==> module_ident(name) != name)
    &&& item.path is Some ==> item.path->0@ == source_file(name)
}

/// Relies on `str::replace`: each occurrence of the pattern is replaced by
/// the given text, here one character by another.
#[verifier::external_body]
fn replace_hyphens(s: &str) -> (r: String)
    ensures
        r@ == hyphens_replaced(s@),
{
    s.replace('-', "_")
}

/// Relies on `str::chars`: the first item is the first character.
#[verifier::external_body]
fn first_char(s: &str) -> (r: Option<char>)
    ensures
        r == (if s@.len() > 0 {
            Some(s@[0])
        } else {
            None::<char>
        }),
{
    s.chars().next()
}

/// The declaration for the file with stem `name`.
pub fn mod_item(name: String) -> (r: ModItem)
    ensures
        declares(r, name@),
{
    let m = replace_hyphens(name.as_str());
    let lead_digit = match first_char(m.as_str()) {
        Some(c) => 48 <= (c as u32) && (c as u32) <= 57,
        None => false,
    };
    let ident = if lead_digit {
        let mut id = String::from_str("_");
        proof {
            reveal_strlit("_");
        }
        id.append(m.as_str());
        assert(id@ =~= seq!['_'] + m@);
        id
    } else {
        m
    };
    let path = if ident == name {
        None
    } else {
        let mut p = name.clone();
        proof {
            reveal_strlit(".rs");
        }
        p.append(".rs");
        assert(p@ =~= source_file(name@));
        Some(p)
    };
    ModItem { name, ident, path }
}

/// A name with a hyphen: the identifier holds an underscore wherever the name
/// holds a hyphen and holds no hyphen itself, and the declaration names its
/// file.
pub proof fn lemma_hyphen_names(item: ModItem, name: Seq<char>)
    requires
        name.contains('-'),
        declares(item, name),
    ensures
        !item.ident@.contains('-'),
        item.ident@ == hyphens_replaced(name) || item.ident@ == seq!['_'] + hyphens_replaced(name),
        forall|i: int| 0 <= i < name.len() && name[i] == '-' ==> hyphens_replaced(name)[i] == '_',
        item.path is Some && item.path->0@ == source_file(name),
{
    let m = hyphens_replaced(name);
    let k = choose|k: int| 0 <= k < name.len() && name[k] == '-';
    assert(m[k] == '_');
    let id = item.ident@;
    if id.contains('-') {
        let j = choose|j: int| 0 <= j < id.len() && id[j] == '-';
        if id == seq!['_'] + m {
            assert(m[j - 1] == '-');
        } else {
            assert(m[j] == '-');
        }
    }
    assert(module_ident(name) != name) by {
        if module_ident(name) == m {
            assert(module_ident(name)[k] != name[k]);
        } else {
            assert(module_ident(name).len() != name.len());
        }
    }
}

/// A name that starts with a digit: the identifier is an underscore before
/// the name with hyphens replaced, and the declaration names its file.
pub proof fn lemma_digit_names(item: ModItem, name: Seq<char>)
    requires
        name.len() > 0,
        is_ascii_digit(hyphens_replaced(name)[0]),
        declares(item, name),
    ensures
        item.ident@ == seq!['_'] + hyphens_replaced(name),
        item.path is Some && item.path->0@ == source_file(name),
{
    assert(module_ident(name).len() != name.len());
}

/// A name with no hyphen and no leading digit is its own identifier, and
/// the declaration names no file.
pub proof fn lemma_plain_names(item: ModItem, name: Seq<char>)
    requires
        !name.contains('-'),
        name.len() == 0 || !is_ascii_digit(name[0]),
        declares(item, name),
    ensures
        item.ident@ == name,
        item.path is None,
{
    assert(hyphens_replaced(name) =~= name) by {
        assert forall|i: int| 0 <= i < name.len() implies hyphens_replaced(name)[i] == name[i] by {
            if name[i] == '-' {
                assert(name.contains('-'));
            }
        }
    }
}

} // verus!
