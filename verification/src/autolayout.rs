//! The focus-driven split-orientation heuristic: given a freshly focused
//! window and a fresh tree, decide which split command (if any) keeps the
//! layout reasonable.  The caller listens for focus events and runs the
//! returned split; everything decided here is pure.

use vstd::prelude::*;

use crate::errors::Error;
use crate::errors::LiveStateError;
use crate::livetree::spec_parent;
use crate::livetree::spec_ratio_of;
use crate::livetree::spec_ws_of;
use crate::livetree::find_node_parent;
use crate::livetree::find_workspace_of_node;
use crate::livetree::is_floating_container;
use crate::livetree::ratio_of_node;
use crate::livetree::FloatingState;
use crate::livetree::LiveLayout;
use crate::livetree::LiveNode;
use crate::livetree::RectRatio;
use crate::livetree::RootNode;
use crate::livetree::Split;

verus! {

/// What the heuristic decides for a focused node against a fresh tree.
///
/// A floating window is left alone.  A window whose parent is not a plain
/// split container is left alone.  Otherwise the split orientation follows
/// the containing workspace's aspect ratio when that workspace is taller
/// than wide, and the window's own aspect ratio else.
pub open spec fn spec_auto_split(root: LiveNode, node: LiveNode) -> Result<Option<Split>, Error> {
    if node.floating == Some(FloatingState::AutoOn) || node.floating == Some(
        FloatingState::UserOn,
    ) {
        Ok(None)
    } else {
        match spec_parent(root, node.id) {
            None => Err(Error::LiveState(LiveStateError::ParentNotFound { node: node.id })),
            Some(parent) => {
                if parent.layout == LiveLayout::SplitH || parent.layout == LiveLayout::SplitV {
                    let ws_vertical = match spec_ws_of(root, node.id, None) {
                        Some(Some(w)) => spec_ratio_of(w) is Vertical,
                        _ => false,
                    };
                    if ws_vertical {
                        Ok(Some(Split::Vertical))
                    } else if spec_ratio_of(node) is Vertical {
                        Ok(Some(Split::Vertical))
                    } else {
                        Ok(Some(Split::Horizontal))
                    }
                } else {
                    Ok(None)
                }
            },
        }
    }
}

/// Decide the split command for a freshly focused window.
pub fn auto_split_decision(node: &LiveNode, root_node: &RootNode) -> (r: Result<
    Option<Split>,
    Error,
>)
    ensures
        r == spec_auto_split(root_node.0, *node),
{
    if is_floating_container(node) {
        return Ok(None);
    }
    let parent = match find_node_parent(node.id, root_node) {
        Some(parent) => parent,
        None => {
            return Err(Error::LiveState(LiveStateError::ParentNotFound { node: node.id }));
        },
    };
    match parent.layout {
        LiveLayout::SplitH | LiveLayout::SplitV => {
            let ws_vertical = match find_workspace_of_node(node.id, root_node) {
                Some(w) => ratio_of_node(w).is_vertical(),
                None => false,
            };
            if ws_vertical {
                Ok(Some(Split::Vertical))
            } else {
                match ratio_of_node(node) {
                    RectRatio::Vertical => Ok(Some(Split::Vertical)),
                    RectRatio::Horizontal => Ok(Some(Split::Horizontal)),
                }
            }
        },
        _ => Ok(None),
    }
}

} // verus!
