//! What the viewer keeps between frames: the document last loaded, the tree
//! shown for it, and the error of the last load that failed with whether its
//! window is open. The window shell runs the file dialog and the drawing and
//! hands the bytes it read to [`Viewer::load`].

use crate::load_nbt_file;
use crate::load_of;
use crate::{LoadError, LoadErrorV};
use crate::nbt::{RootTag, RootV};
use crate::tree::{fresh_leaf, leaf_data_of, NbtLeaf, NbtTree, TreeV};
use vstd::prelude::*;

verus! {

/// The viewer's state.
pub struct Viewer {
    root_tag: Option<RootTag>,
    nbt_tree: Option<NbtTree>,
    error_popup: bool,
    error: Option<LoadError>,
}

/// The mathematical value of a [`Viewer`].
pub struct ViewerV {
    pub root: Option<RootV>,
    pub tree: Option<TreeV>,
    pub error_popup: bool,
    pub error: Option<LoadErrorV>,
}

pub open spec fn root_opt_view(o: Option<RootTag>) -> Option<RootV> {
    match o {
        Some(t) => Some(t@),
        None => None,
    }
}

pub open spec fn error_opt_view(o: Option<LoadError>) -> Option<LoadErrorV> {
    match o {
        Some(e) => Some(e@),
        None => None,
    }
}

pub open spec fn tree_opt_view(o: Option<NbtTree>) -> Option<TreeV> {
    match o {
        Some(t) => Some(t@),
        None => None,
    }
}

impl View for Viewer {
    type V = ViewerV;

    closed spec fn view(&self) -> ViewerV {
        ViewerV {
            root: root_opt_view(self.root_tag),
            tree: tree_opt_view(self.nbt_tree),
            error_popup: self.error_popup,
            error: error_opt_view(self.error),
        }
    }
}

/// The tree shown for a document: its root as the top leaf, enabled.
pub open spec fn tree_of(r: RootV) -> TreeV {
    TreeV { leaf: fresh_leaf(r.name, leaf_data_of(r.data.payload)), enabled: true }
}

/// The state after loading a file's bytes: a document replaces the one shown
/// and its tree; an error is kept and its window opened.
pub open spec fn after_load(v: ViewerV, data: Seq<u8>) -> ViewerV {
    match load_of(data) {
        Ok(r) => ViewerV { root: Some(r), tree: Some(tree_of(r)), ..v },
        Err(e) => ViewerV { error_popup: true, error: Some(e), ..v },
    }
}

/// A load that fails leaves the document and its tree as they were, and
/// opens the error window with its error.
pub proof fn law_failed_load_keeps_document(v: ViewerV, data: Seq<u8>)
    requires
        load_of(data) is Err,
    ensures
        after_load(v, data).root == v.root,
        after_load(v, data).tree == v.tree,
        after_load(v, data).error_popup,
        after_load(v, data).error == Some(load_of(data)->Err_0),
{
}

/// A load that succeeds shows the document and its tree, and leaves the
/// error and its window as they were.
pub proof fn law_loaded_document_is_shown(v: ViewerV, data: Seq<u8>)
    requires
        load_of(data) is Ok,
    ensures
        after_load(v, data).root == Some(load_of(data)->Ok_0),
        after_load(v, data).tree == Some(tree_of(load_of(data)->Ok_0)),
        after_load(v, data).error == v.error,
        after_load(v, data).error_popup == v.error_popup,
{
}

impl Viewer {
    /// Nothing loaded, no error.
    pub fn new() -> (v: Viewer)
        ensures
            v@ == (ViewerV { root: None, tree: None, error_popup: false, error: None }),
    {
        Viewer { root_tag: None, nbt_tree: None, error_popup: false, error: None }
    }

    /// Closes the error window when there is no error to show in it.
    pub fn settle_popup(&mut self)
        ensures
            final(self)@ == (ViewerV {
                error_popup: old(self)@.error_popup && old(self)@.error is Some,
                ..old(self)@
            }),
    {
        if self.error.is_none() && self.error_popup {
            self.error_popup = false;
        }
    }

    /// Loads the bytes of a file named `name`, gzip-compressed or not.
    pub fn load(&mut self, data: Vec<u8>, name: &str)
        ensures
            final(self)@ == after_load(old(self)@, data@),
    {
        match load_nbt_file(data, name) {
            Ok(v) => {
                self.nbt_tree = Some(NbtTree::new(NbtLeaf::from_root(&v)));
                self.root_tag = Some(v);
            },
            Err(e) => {
                self.error_popup = true;
                self.error = Some(e);
            },
        }
    }

    /// The document last loaded.
    pub fn root_tag(&self) -> (r: Option<&RootTag>)
        ensures
            match r {
                Some(t) => self@.root == Some(t@),
                None => self@.root is None,
            },
    {
        self.root_tag.as_ref()
    }

    /// The tree shown, to draw and edit.
    pub fn tree_mut(&mut self) -> (r: Option<&mut NbtTree>)
        ensures
            match old(self)@.tree {
                None => r is None && final(self)@ == old(self)@,
                Some(t) => r is Some && r.unwrap()@ == t && final(self)@ == (ViewerV {
                    tree: Some(final(r.unwrap())@),
                    ..old(self)@
                }),
            },
    {
        self.nbt_tree.as_mut()
    }

    /// The error of the last load that failed.
    pub fn error(&self) -> (e: Option<&LoadError>)
        ensures
            match e {
                Some(x) => self@.error == Some(x@),
                None => self@.error is None,
            },
    {
        self.error.as_ref()
    }

    /// Whether the error window is open.
    pub fn error_popup(&self) -> (b: bool)
        ensures
            b == self@.error_popup,
    {
        self.error_popup
    }

    /// Opens or closes the error window.
    pub fn set_error_popup(&mut self, open: bool)
        ensures
            final(self)@ == (ViewerV { error_popup: open, ..old(self)@ }),
    {
        self.error_popup = open;
    }
}

} // verus!
