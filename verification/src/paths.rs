//! File paths as the library sees them.
//!
//! `std::path::PathBuf` is opaque. Of a path the library reads which other paths
//! it equals, its text, and its parent.

use std::path::PathBuf;
use vstd::prelude::*;

verus! {

/// `std::path::PathBuf`, opaque here.
#[verifier::external_type_specification]
#[verifier::external_body]
pub struct ExPathBuf(PathBuf);

/// What `Path`'s `==` compares: the components that `Path::components` yields.
/// Two paths are equal, and hash alike, exactly if their keys are equal.
pub type PathKey = Seq<Seq<u8>>;

/// The components of `p`, as `Path::components` yields them.
pub uninterp spec fn path_key(p: &PathBuf) -> PathKey;

/// The text of `p` as `Path::to_string_lossy` gives it.
pub uninterp spec fn path_text(p: &PathBuf) -> Seq<char>;

/// `p` is valid Unicode: `Path::to_str` answers `Some`.
pub uninterp spec fn is_unicode(p: &PathBuf) -> bool;

/// The path that `PathBuf::from` makes of a text.
pub uninterp spec fn text_path(text: Seq<char>) -> PathBuf;

/// The path without its final component, as `Path::parent` gives it.
pub uninterp spec fn parent_of(p: &PathBuf) -> Option<PathBuf>;

/// The keys of some paths.
pub open spec fn keys_of(list: Seq<PathBuf>) -> Set<PathKey> {
    Set::new(|k: PathKey| exists|i: int| 0 <= i < list.len() && path_key(&#[trigger] list[i]) == k)
}

pub(crate) proof fn lemma_keys_of_push(list: Seq<PathBuf>, path: PathBuf)
    ensures
        keys_of(list.push(path)) == keys_of(list).insert(path_key(&path)),
{
    let longer = list.push(path);
    assert forall|k: PathKey| #[trigger] keys_of(list).insert(path_key(&path)).contains(k) implies
        keys_of(longer).contains(k) by {
        if k == path_key(&path) {
            assert(longer[list.len() as int] == path);
        } else {
            let i = choose|i: int| 0 <= i < list.len() && path_key(&#[trigger] list[i]) == k;
            assert(longer[i] == list[i]);
        }
    }
    assert(keys_of(longer) =~= keys_of(list).insert(path_key(&path)));
}

/// Calls `PathBuf::clone`. Claimed: the clone is the same path.
#[verifier::external_body]
pub(crate) fn owned(p: &PathBuf) -> (r: PathBuf)
    ensures
        r == *p,
{
    p.clone()
}

/// Calls `Path::to_string_lossy`. Claimed: the text is [`path_text`], and for a
/// path that is valid Unicode nothing was lost, so `PathBuf::from` leads back to it.
#[verifier::external_body]
pub(crate) fn to_text(p: &PathBuf) -> (r: String)
    ensures
        r@ == path_text(p),
        is_unicode(p) ==> text_path(r@) == *p,
{
    p.to_string_lossy().into_owned()
}

/// Calls `Path::to_str`. Claimed: it answers a text just for a path that is valid
/// Unicode.
#[verifier::external_body]
pub(crate) fn has_text(p: &PathBuf) -> (r: bool)
    ensures
        r == is_unicode(p),
{
    p.to_str().is_some()
}

/// Calls `PathBuf::from`. Claimed: the path is [`text_path`] of the text, is valid
/// Unicode, and has that text.
#[verifier::external_body]
pub(crate) fn from_text(text: &str) -> (r: PathBuf)
    ensures
        r == text_path(text@),
        is_unicode(&r),
        path_text(&r) == text@,
{
    PathBuf::from(text)
}

/// Calls `Path::parent`. Claimed: the result is [`parent_of`].
#[verifier::external_body]
pub(crate) fn parent(p: &PathBuf) -> (r: Option<PathBuf>)
    ensures
        r == parent_of(p),
{
    p.parent().map(PathBuf::from)
}

} // verus!
