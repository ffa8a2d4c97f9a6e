//! The words that the panels show.

use crate::objects::{Object, ObjectType, ObjectView};
use vstd::prelude::*;

verus! {

impl ObjectType {
    /// The name of the kind in the tree of objects.
    pub open spec fn label(self) -> Seq<char> {
        match self {
            ObjectType::Empty => "Empty"@,
            ObjectType::Scene => "GLTF Scene"@,
            ObjectType::Mesh => "GLTF Mesh"@,
            ObjectType::Ron => "Ron"@,
            ObjectType::Collider => "Collider"@,
        }
    }

    pub fn to_string(&self) -> (r: String)
        ensures
            r@ == self.label(),
    {
        match self {
            ObjectType::Empty => "Empty".to_owned(),
            ObjectType::Scene => "GLTF Scene".to_owned(),
            ObjectType::Mesh => "GLTF Mesh".to_owned(),
            ObjectType::Ron => "Ron".to_owned(),
            ObjectType::Collider => "Collider".to_owned(),
        }
    }
}

/// `Path::file_name`: the last component of the path, where it has one.
/// What counts as a component depends on the platform, so nothing is said of
/// the result.
#[verifier::external_body]
fn file_name(path: &str) -> (name: Option<String>) {
    match std::path::Path::new(path).file_name() {
        Some(name) => match name.to_str() {
            Some(text) => Some(text.to_owned()),
            None => None,
        },
        None => None,
    }
}

/// The name under which a file is shown: its file name, or a dash where it
/// has none.
pub fn shown_name(found: Option<String>) -> (r: String)
    ensures
        r@ == match found {
            Some(name) => name@,
            None => "-"@,
        },
{
    match found {
        Some(name) => name,
        None => "-".to_owned(),
    }
}

/// The name under which a path is shown: the file name of the path, or a
/// dash where there is no path or the path has no file name.
pub fn get_name(path: &Option<String>) -> (r: String)
    ensures
        path is None ==> r@ == "-"@,
{
    match path {
        Some(p) => shown_name(file_name(p.as_str())),
        None => "-".to_owned(),
    }
}

/// The name under which the selected object is shown, given the shown name
/// of its file.
pub open spec fn selected_label(selected: Option<ObjectView>, file: Seq<char>) -> Seq<char> {
    match selected {
        None => "-"@,
        Some(object) => match object.object_type {
            ObjectType::Empty => "empty"@,
            ObjectType::Collider => match object.collider {
                Some(c) => c.collider_type.label(),
                None => "-"@,
            },
            _ => file,
        },
    }
}

/// An optional object as a mathematical value.
pub open spec fn selected_view(selected: Option<Object>) -> Option<ObjectView> {
    match selected {
        Some(object) => Some(object@),
        None => None,
    }
}

/// Names the selected object, given the shown name of its file.
pub fn selected_object_name(selected: &Option<Object>, file: String) -> (r: String)
    ensures
        r@ == selected_label(selected_view(*selected), file@),
{
    match selected {
        None => "-".to_owned(),
        Some(object) => match object.object_type {
            ObjectType::Empty => "empty".to_owned(),
            ObjectType::Collider => match object.collider {
                Some(c) => c.collider_type.to_string(),
                None => "-".to_owned(),
            },
            _ => file,
        },
    }
}

/// Names the selected object: a dash where none is selected, `empty` for an
/// empty node, the shape for a collider, and the shown name of the file for
/// an object that is backed by a file.
pub fn get_selected_object_name(selected: &Option<Object>) -> (r: String)
    ensures
        selected is None ==> r@ == "-"@,
        selected is Some && !selected->Some_0@.object_type.has_asset() ==> r@ == selected_label(
            selected_view(*selected),
            Seq::empty(),
        ),
{
    let file = match selected {
        Some(object) => get_name(&object.path),
        None => "-".to_owned(),
    };
    selected_object_name(selected, file)
}

/// The text in which every stretch that equals the pattern, found from the
/// left and not overlapping the one before, has given way to `with`.
pub open spec fn replaced(text: Seq<char>, pattern: Seq<char>, with: Seq<char>) -> Seq<char>
    decreases text.len(),
{
    if pattern.len() == 0 || text.len() < pattern.len() {
        text
    } else if pattern.is_prefix_of(text) {
        with + replaced(text.skip(pattern.len() as int), pattern, with)
    } else {
        seq![text[0]] + replaced(text.skip(1), pattern, with)
    }
}

/// `str::replace`, for a pattern that is not empty.
#[verifier::external_body]
fn replace_all(text: &str, pattern: &str, with: &str) -> (r: String)
    requires
        pattern@.len() > 0,
    ensures
        r@ == replaced(text@, pattern@, with@),
{
    text.replace(pattern, with)
}

/// The path as the library of objects shows it: without the asset directory.
pub fn relative_path(path: &str, assets: &str) -> (r: String)
    ensures
        r@ == replaced(path@, assets@, Seq::empty()),
{
    if assets.unicode_len() == 0 {
        String::from_str(path)
    } else {
        proof {
            reveal_strlit("");
        }
        let r = replace_all(path, assets, "");
        assert(""@ =~= Seq::<char>::empty());
        r
    }
}

/// The name of an object in the library: its path without the asset
/// directory, marked by its kind where it is a glTF scene or mesh.
pub open spec fn library_label(
    object_type: ObjectType,
    path: Seq<char>,
    assets: Seq<char>,
) -> Seq<char> {
    let relative = replaced(path, assets, Seq::empty());
    match object_type {
        ObjectType::Scene => "gltf_scene:"@ + relative,
        ObjectType::Mesh => "gltf_mesh:"@ + relative,
        _ => relative,
    }
}

/// Names an object in the library.
pub fn library_name(object_type: ObjectType, path: &str, assets: &str) -> (r: String)
    ensures
        r@ == library_label(object_type, path@, assets@),
{
    let relative = relative_path(path, assets);
    match object_type {
        ObjectType::Scene => String::from_str("gltf_scene:").concat(relative.as_str()),
        ObjectType::Mesh => String::from_str("gltf_mesh:").concat(relative.as_str()),
        _ => relative,
    }
}

} // verus!
