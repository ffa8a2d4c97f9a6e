//! Paths that do not depend on the machine: in a stored document the asset
//! directory at the front of a path is written as a fixed token.

use crate::document::Ron;
use crate::objects::{Object, ObjectView};
use crate::spawn::LoadError;
use vstd::prelude::*;

verus! {

/// The token that stands for the asset directory.
pub open spec fn asset_token() -> Seq<char> {
    "__path_to_assets__"@
}

/// The stored form of a path: the asset directory at its front gives way to
/// the token; a path outside the asset directory is stored as it is.
pub open spec fn portable_path(path: Seq<char>, assets: Seq<char>) -> Seq<char> {
    if assets.is_prefix_of(path) {
        asset_token() + path.skip(assets.len() as int)
    } else {
        path
    }
}

/// The local form of a stored path: the token at its front gives way to the
/// asset directory of this machine.
pub open spec fn local_path(path: Seq<char>, assets: Seq<char>) -> Seq<char> {
    if asset_token().is_prefix_of(path) {
        assets + path.skip(asset_token().len() as int)
    } else {
        path
    }
}

/// An object with its path in stored form.
pub open spec fn portable_object(object: ObjectView, assets: Seq<char>) -> ObjectView {
    ObjectView {
        object_type: object.object_type,
        path: match object.path {
            Some(p) => Some(portable_path(p, assets)),
            None => None,
        },
        collider: object.collider,
    }
}

/// An object with its path in local form.
pub open spec fn local_object(object: ObjectView, assets: Seq<char>) -> ObjectView {
    ObjectView {
        object_type: object.object_type,
        path: match object.path {
            Some(p) => Some(local_path(p, assets)),
            None => None,
        },
        collider: object.collider,
    }
}

/// `str::strip_prefix`: the text without the prefix, where it starts with the
/// prefix, and nothing where it does not.
#[verifier::external_body]
fn strip_prefix<'a>(text: &'a str, prefix: &str) -> (rest: Option<&'a str>)
    ensures
        match rest {
            Some(tail) => text@ == prefix@ + tail@,
            None => !prefix@.is_prefix_of(text@),
        },
{
    text.strip_prefix(prefix)
}

/// Replaces `from` at the front of the path by `to`.
fn swap_front(path: &str, from: &str, to: &str) -> (r: String)
    ensures
        r@ == if from@.is_prefix_of(path@) {
            to@ + path@.skip(from@.len() as int)
        } else {
            path@
        },
{
    match strip_prefix(path, from) {
        Some(tail) => {
            proof {
                assert((from@ + tail@).skip(from@.len() as int) =~= tail@);
                assert(from@.is_prefix_of(from@ + tail@));
            }
            String::from_str(to).concat(tail)
        },
        None => String::from_str(path),
    }
}

/// Writes a path in stored form.
pub fn to_portable_path(path: &str, assets: &str) -> (r: String)
    ensures
        r@ == portable_path(path@, assets@),
{
    swap_front(path, assets, "__path_to_assets__")
}

/// Writes a stored path in local form.
pub fn to_local_path(path: &str, assets: &str) -> (r: String)
    ensures
        r@ == local_path(path@, assets@),
{
    swap_front(path, "__path_to_assets__", assets)
}

/// The objects of a document with their paths in stored form.
pub open spec fn portable_objects(objects: Map<usize, ObjectView>, assets: Seq<char>) -> Map<
    usize,
    ObjectView,
> {
    Map::new(|k: usize| objects.contains_key(k), |k: usize| portable_object(objects[k], assets))
}

/// The objects of a document with their paths in local form.
pub open spec fn local_objects(objects: Map<usize, ObjectView>, assets: Seq<char>) -> Map<
    usize,
    ObjectView,
> {
    Map::new(|k: usize| objects.contains_key(k), |k: usize| local_object(objects[k], assets))
}

/// Rewrites the paths of all objects, to stored form or to local form.
fn rewrite_paths(doc: &mut Ron, assets: &str, store: bool) -> (r: Result<(), LoadError>)
    ensures
        r is Ok <==> old(doc)@.objects_dense(),
        r is Err ==> r == Err::<(), LoadError>(LoadError::ObjectKeys) && *final(doc) == *old(doc),
        r is Ok ==> final(doc)@.nodes == old(doc)@.nodes,
        r is Ok && store ==> final(doc)@.objects == portable_objects(old(doc)@.objects, assets@),
        r is Ok && !store ==> final(doc)@.objects == local_objects(old(doc)@.objects, assets@),
{
    let count = doc.object_count();
    let mut k: usize = 0;
    while k < count
        invariant
            0 <= k <= count,
            *doc == *old(doc),
            doc@.objects.dom().finite(),
            count == doc@.objects.dom().len(),
            forall|i: usize| i < k ==> doc@.objects.contains_key(i),
        decreases count - k,
    {
        if doc.object(k).is_none() {
            return Err(LoadError::ObjectKeys);
        }
        k += 1;
    }
    proof {
        crate::document::lemma_keys_below(count);
        let below = Set::new(|i: usize| i < count);
        assert(below.subset_of(doc@.objects.dom()));
        vstd::set_lib::lemma_subset_equality(below, doc@.objects.dom());
        assert(doc@.objects_dense());
    }
    let ghost before = doc@.objects;
    k = 0;
    while k < count
        invariant
            0 <= k <= count,
            doc@.nodes == old(doc)@.nodes,
            before == old(doc)@.objects,
            old(doc)@.objects_dense(),
            count == before.dom().len(),
            doc@.objects.dom() =~= before.dom(),
            forall|i: usize| k <= i < count ==> doc@.objects[i] == before[i],
            forall|i: usize|
                i < k ==> doc@.objects[i] == if store {
                    portable_object(before[i], assets@)
                } else {
                    local_object(before[i], assets@)
                },
        decreases count - k,
    {
        let rewritten = match doc.object(k) {
            Some(object) => {
                let path = match &object.path {
                    Some(p) => if store {
                        Some(to_portable_path(p.as_str(), assets))
                    } else {
                        Some(to_local_path(p.as_str(), assets))
                    },
                    None => None,
                };
                Object::new(object.object_type, path, object.collider)
            },
            None => Object::default(),
        };
        doc.insert_object(k, rewritten);
        k += 1;
    }
    proof {
        if store {
            assert(doc@.objects =~= portable_objects(before, assets@));
        } else {
            assert(doc@.objects =~= local_objects(before, assets@));
        }
    }
    Ok(())
}

impl Ron {
    /// Puts the paths of all objects in stored form, given the asset directory
    /// of this machine. A document whose object keys are not the numbers from
    /// zero up is left as it is.
    pub fn make_portable(&mut self, assets: &str) -> (r: Result<(), LoadError>)
        ensures
            r is Ok <==> old(self)@.objects_dense(),
            r is Err ==> r == Err::<(), LoadError>(LoadError::ObjectKeys) && *final(self) == *old(
                self,
            ),
            r is Ok ==> final(self)@.nodes == old(self)@.nodes && final(self)@.objects
                == portable_objects(old(self)@.objects, assets@),
    {
        rewrite_paths(self, assets, true)
    }

    /// Puts the paths of all objects in local form, given the asset directory
    /// of this machine. A document whose object keys are not the numbers from
    /// zero up is left as it is.
    pub fn make_local(&mut self, assets: &str) -> (r: Result<(), LoadError>)
        ensures
            r is Ok <==> old(self)@.objects_dense(),
            r is Err ==> r == Err::<(), LoadError>(LoadError::ObjectKeys) && *final(self) == *old(
                self,
            ),
            r is Ok ==> final(self)@.nodes == old(self)@.nodes && final(self)@.objects
                == local_objects(old(self)@.objects, assets@),
    {
        rewrite_paths(self, assets, false)
    }
}

/// A path comes back from its stored form unless it starts with the token
/// itself while lying outside the asset directory.
pub proof fn lemma_path_round_trip(path: Seq<char>, assets: Seq<char>)
    requires
        assets.is_prefix_of(path) || !asset_token().is_prefix_of(path),
    ensures
        local_path(portable_path(path, assets), assets) == path,
{
    if assets.is_prefix_of(path) {
        let tail = path.skip(assets.len() as int);
        let stored = asset_token() + tail;
        assert(asset_token().is_prefix_of(stored));
        assert(stored.skip(asset_token().len() as int) =~= tail);
        assert(assets + tail =~= path);
    }
}

/// The path of the object, if it has one, comes back from its stored form.
pub open spec fn path_returns(object: ObjectView, assets: Seq<char>) -> bool {
    match object.path {
        Some(p) => assets.is_prefix_of(p) || !asset_token().is_prefix_of(p),
        None => true,
    }
}

/// The objects of a document come back from their stored form on the machine
/// on which they were stored, as long as no path starts with the token itself
/// while lying outside the asset directory.
pub proof fn law_objects_round_trip(objects: Map<usize, ObjectView>, assets: Seq<char>)
    requires
        forall|k: usize| objects.contains_key(k) ==> path_returns(#[trigger] objects[k], assets),
    ensures
        local_objects(portable_objects(objects, assets), assets) == objects,
{
    let stored = portable_objects(objects, assets);
    let back = local_objects(stored, assets);
    assert forall|k: usize| objects.contains_key(k) implies #[trigger] back[k] == objects[k] by {
        assert(path_returns(objects[k], assets));
        match objects[k].path {
            Some(p) => {
                lemma_path_round_trip(p, assets);
            },
            None => {},
        }
    }
    assert(back =~= objects);
}

} // verus!
