//! Data behind the navigation panel: the current location, its parent,
//! the breadcrumb components and the visible subdirectories, with the
//! locked ones split out by the caller's credentials.

use vstd::prelude::*;

use crate::config::Config;
use crate::index::Gallery;
use crate::password::Passwords;
use crate::strutil::{lemma_split_slash_len, parent_path, spec_join, spec_parent, spec_split_path, split_path};

verus! {

/// What the navigation panel shows for one location.
#[derive(Debug)]
pub struct NavData {
    /// Gallery title.
    pub title: String,
    /// Whether the shown location is the gallery root.
    pub is_root: bool,
    /// Name of the directory whose subdirectories are shown.
    pub current: String,
    /// Name of the requested directory itself.
    pub current_open: String,
    /// Path of the directory whose subdirectories are shown.
    pub path_current: String,
    /// Path of its parent.
    pub path_parent: String,
    /// Breadcrumb components of `path_current`.
    pub path_split: Vec<String>,
    /// Breadcrumb components of the requested path.
    pub path_split_open: Vec<String>,
    /// Subdirectory names to list.
    pub subdirs: Vec<String>,
    /// The requested directory's own name, when it is shown as an open
    /// entry of its parent's listing.
    pub open_subdir: Option<String>,
    /// Listed subdirectories that need a password the caller lacks.
    pub locked_subdirs: Vec<String>,
    /// Listed subdirectories that need a password the caller holds.
    pub unlocked_subdirs: Vec<String>,
}

/// Whether the caller's credentials, if any, cover a path.
pub open spec fn provided_has(provided: Option<&Passwords>, q: Seq<char>) -> bool {
    match provided {
        Some(p) => p@.contains_key(q),
        None => false,
    }
}

/// Whether the panel for `path` keeps showing the parent's listing: the
/// path is not the root and has no visible subdirectory of its own.
pub open spec fn keeps_parent_open(gallery: Gallery, path: Seq<char>) -> bool {
    path.len() > 0 && (match gallery.subdirs_at(path) {
        Some(sd) => crate::index::visible_names(sd).len() == 0,
        None => true,
    })
}

impl NavData {
    /// A minimal panel for the root with nothing listed, used when access
    /// was denied and nothing may be revealed.
    pub fn new() -> (r: NavData)
        ensures
            r.is_root,
            r.subdirs@.len() == 0,
            r.locked_subdirs@.len() == 0,
            r.unlocked_subdirs@.len() == 0,
    {
        NavData {
            title: String::new(),
            is_root: true,
            current: String::new(),
            current_open: String::new(),
            path_current: String::new(),
            path_parent: String::new(),
            path_split: Vec::new(),
            path_split_open: Vec::new(),
            subdirs: Vec::new(),
            open_subdir: None,
            locked_subdirs: Vec::new(),
            unlocked_subdirs: Vec::new(),
        }
    }

    /// Build the panel for a path: list its visible subdirectories, or,
    /// when it has none, keep showing its parent's listing with the
    /// directory itself marked open. Subdirectories that require a
    /// password are split by whether the caller's credentials cover them.
    pub fn from_path(path: &str, gallery: &Gallery, config: &Config, provided: Option<&Passwords>) -> (r:
        NavData)
        requires
            gallery.wf(),
            match provided {
                Some(p) => p.wf(),
                None => true,
            },
        ensures
            r.title@ == config.TITLE@,
            r.current_open@ == (if spec_split_path(path@).len() > 0 {
                spec_split_path(path@).last()
            } else {
                "/"@
            }),
            r.path_current@ == (if keeps_parent_open(*gallery, path@) {
                spec_parent(path@)
            } else {
                path@
            }),
            r.path_parent@ == spec_parent(r.path_current@),
            r.is_root == (r.path_current@.len() == 0),
            keeps_parent_open(*gallery, path@) ==> (r.open_subdir matches Some(n) && n@
                == spec_split_path(path@).last()),
            !keeps_parent_open(*gallery, path@) ==> r.open_subdir is None,
            r.path_split@.map_values(|s: String| s@) == (if keeps_parent_open(
                *gallery,
                path@,
            ) {
                spec_split_path(path@).drop_last()
            } else {
                spec_split_path(path@)
            }),
            r.path_split_open@.map_values(|s: String| s@) == spec_split_path(path@),
            r.current@ == (if r.path_split@.len() > 0 {
                r.path_split@.last()@
            } else {
                "/"@
            }),
            forall|k: int|
                0 <= k < r.locked_subdirs@.len() ==> gallery.passwords_view().contains_key(
                    spec_join(r.path_current@, (#[trigger] r.locked_subdirs@[k])@),
                ),
            forall|k: int|
                0 <= k < r.unlocked_subdirs@.len() ==> gallery.passwords_view().contains_key(
                    spec_join(r.path_current@, (#[trigger] r.unlocked_subdirs@[k])@),
                ) && provided_has(
                    provided,
                    spec_join(r.path_current@, r.unlocked_subdirs@[k]@),
                ),
    {
        proof {
            reveal_strlit("/");
        }
        let title = config.TITLE.clone();
        let mut path_current = path.to_owned();
        let mut path_parent = parent_path(path);
        let mut is_root = path.unicode_len() == 0;
        let mut path_split = split_path(path);
        let path_split_open = split_path(path);
        let mut current = last_or_slash(&path_split);
        let current_open = last_or_slash(&path_split);
        let mut subdirs = gallery.get_subdirs(path, None);
        let mut open_subdir: Option<String> = None;
        proof {
            assert((!is_root && subdirs@.len() == 0) == keeps_parent_open(*gallery, path@));
            if path@.len() > 0 {
                lemma_split_slash_len(path@);
            }
        }
        // A directory without subdirectories keeps its parent's listing
        // open at its own entry.
        if !is_root && subdirs.len() == 0 {
            let ghost split_before = path_split@;
            let own_name = match path_split.pop() {
                Some(n) => n,
                None => String::new(),
            };
            proof {
                assert(own_name@ == spec_split_path(path@).last()) by {
                    assert(split_before.map_values(|s: String| s@).last()
                        == split_before.last()@);
                }
                assert(path_split@.map_values(|s: String| s@) =~= spec_split_path(
                    path@,
                ).drop_last());
            }
            current = last_or_slash(&path_split);
            path_current = path_parent;
            path_parent = parent_path(path_current.as_str());
            is_root = path_current.as_str().unicode_len() == 0;
            subdirs = gallery.get_subdirs(path_current.as_str(), Some(&own_name));
            open_subdir = Some(own_name);
        }
        // Split the listed subdirectories by their password state.
        let mut locked: Vec<String> = Vec::new();
        let mut unlocked: Vec<String> = Vec::new();
        let passwords = gallery.get_passwords();
        let ns = subdirs.len();
        let mut i: usize = 0;
        while i < ns
            invariant
                gallery.wf(),
                match provided {
                    Some(p) => p.wf(),
                    None => true,
                },
                ns == subdirs@.len(),
                0 <= i <= ns,
                passwords@ == gallery.passwords_view(),
                passwords.wf(),
                forall|k: int|
                    0 <= k < locked@.len() ==> gallery.passwords_view().contains_key(
                        spec_join(path_current@, (#[trigger] locked@[k])@),
                    ),
                forall|k: int|
                    0 <= k < unlocked@.len() ==> gallery.passwords_view().contains_key(
                        spec_join(path_current@, (#[trigger] unlocked@[k])@),
                    ) && provided_has(
                        provided,
                        spec_join(path_current@, unlocked@[k]@),
                    ),
            decreases ns - i,
        {
            let sub_path = crate::strutil::join_path(path_current.as_str(), subdirs[i].as_str());
            if passwords.contains_key(sub_path.as_str()) {
                let covered = match provided {
                    Some(p) => p.contains_key(sub_path.as_str()),
                    None => false,
                };
                proof {
                    assert(covered == provided_has(provided, sub_path@));
                }
                if covered {
                    unlocked.push(subdirs[i].clone());
                    proof {
                        assert(unlocked@.last()@ == subdirs@[i as int]@);
                        assert(spec_join(path_current@, unlocked@.last()@) == sub_path@);
                    }
                } else {
                    locked.push(subdirs[i].clone());
                    proof {
                        assert(locked@.last()@ == subdirs@[i as int]@);
                        assert(spec_join(path_current@, locked@.last()@) == sub_path@);
                    }
                }
            }
            i = i + 1;
        }
        NavData {
            title,
            is_root,
            current,
            current_open,
            path_current,
            path_parent,
            path_split,
            path_split_open,
            subdirs,
            open_subdir,
            locked_subdirs: locked,
            unlocked_subdirs: unlocked,
        }
    }
}

/// The last breadcrumb component, or "/" at the root.
fn last_or_slash(split: &Vec<String>) -> (r: String)
    ensures
        split@.len() > 0 ==> r@ == split@.last()@,
        split@.len() == 0 ==> r@ == "/"@,
{
    proof {
        reveal_strlit("/");
    }
    if split.len() > 0 {
        split[split.len() - 1].clone()
    } else {
        "/".to_owned()
    }
}

} // verus!
