//! Taking in a scene document that was read from a file.

use crate::document::Ron;
use crate::loading::{dependencies, dependency_paths, paths_view};
use crate::portable::local_objects;
use crate::spawn::LoadError;
use vstd::prelude::*;

verus! {

/// The loader of scene documents.
#[derive(Clone, Copy, Debug)]
pub struct RonLoader;

impl Default for RonLoader {
    fn default() -> (r: Self) {
        RonLoader
    }
}

impl RonLoader {
    /// Takes in a document as it was stored: puts the paths of its objects in
    /// local form, given the asset directory of this machine, and lists the
    /// paths that its objects have to load, by object key. A document whose
    /// object keys are not the numbers from zero up is refused and left as it
    /// is.
    pub fn load(&self, doc: &mut Ron, assets: &str) -> (r: Result<Vec<String>, LoadError>)
        ensures
            r is Ok <==> old(doc)@.objects_dense(),
            match r {
                Ok(paths) => {
                    &&& final(doc)@.nodes == old(doc)@.nodes
                    &&& final(doc)@.objects == local_objects(old(doc)@.objects, assets@)
                    &&& paths_view(paths@) == dependency_paths(
                        final(doc)@.objects,
                        final(doc)@.objects.dom().len(),
                    )
                },
                Err(e) => e == LoadError::ObjectKeys && *final(doc) == *old(doc),
            },
    {
        match doc.make_local(assets) {
            Err(e) => Err(e),
            Ok(()) => {
                proof {
                    assert(doc@.objects.dom() =~= old(doc)@.objects.dom());
                    assert(doc@.objects_dense());
                }
                dependencies(doc)
            },
        }
    }

    /// The file extensions of scene documents.
    pub fn extensions(&self) -> (r: Vec<&'static str>)
        ensures
            r@.len() == 1,
            r@[0]@ == "ron"@,
    {
        let mut r: Vec<&'static str> = Vec::new();
        r.push("ron");
        r
    }
}

} // verus!
