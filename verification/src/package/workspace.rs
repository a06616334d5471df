//! The physical layout of a project workspace: its root, the components
//! directory and the plugins directory. This module computes the canonical
//! paths; creating the directories on disk is the caller's work.

use vstd::prelude::*;

use crate::text::{spec_path_join, path_join};

verus! {

/// The resolved layout of one workspace.
pub struct WorkspaceInfo {
    pub root: String,
    pub components: String,
    pub plugins: String,
}

/// Resolves the standard directories of a workspace under a root.
pub struct WorkspaceDetector {
    pub root: String,
}

impl WorkspaceDetector {
    pub fn new(workspace_root: &str) -> (r: Self)
        ensures
            r.root@ == workspace_root@,
    {
        WorkspaceDetector { root: workspace_root.to_owned() }
    }

    /// The canonical components directory, under the root.
    pub fn components_dir(&self) -> (r: String)
        ensures
            r@ == spec_path_join(self.root@, "components"@),
    {
        path_join(self.root.as_str(), "components")
    }

    /// The canonical plugins directory, under the root.
    pub fn plugins_dir(&self) -> (r: String)
        ensures
            r@ == spec_path_join(self.root@, "plugins"@),
    {
        path_join(self.root.as_str(), "plugins")
    }

    /// The whole layout at once.
    pub fn get_workspace_info(&self) -> (r: WorkspaceInfo)
        ensures
            r.root@ == self.root@,
            r.components@ == spec_path_join(self.root@, "components"@),
            r.plugins@ == spec_path_join(self.root@, "plugins"@),
    {
        WorkspaceInfo {
            root: self.root.clone(),
            components: self.components_dir(),
            plugins: self.plugins_dir(),
        }
    }

    /// Every directory the workspace needs, root first: creating each of
    /// them, in order, is what making the structure means.
    pub fn required_dirs(&self) -> (r: Vec<String>)
        ensures
            r.deep_view() == seq![
                self.root@,
                spec_path_join(self.root@, "components"@),
                spec_path_join(self.root@, "plugins"@),
            ],
    {
        let mut out: Vec<String> = Vec::new();
        out.push(self.root.clone());
        out.push(self.components_dir());
        out.push(self.plugins_dir());
        proof {
            assert(out.deep_view() =~= seq![
                self.root@,
                spec_path_join(self.root@, "components"@),
                spec_path_join(self.root@, "plugins"@),
            ]);
        }
        out
    }
}

} // verus!
