//! Which actions the currently selected node allows: the core supplies only
//! the predicates on the node's content type and state booleans; dispatching
//! the action itself belongs to the process-control collaborator.
use vstd::prelude::*;

use crate::node::ContentType;
use crate::node::Node;
use crate::node::NodeView;

verus! {

/// The service operations a selection can enable.
#[derive(Clone, Copy, PartialEq, Eq, Structural, Debug)]
pub enum ServiceAction {
    Start,
    Stop,
    Restart,
    Details,
}

/// Process actions (stop, force-stop, suspend, resume, the signals, and
/// details) are enabled exactly for process and app selections.
pub open spec fn spec_process_actions_enabled(n: NodeView) -> bool {
    n.content_type == ContentType::Process || n.content_type == ContentType::App
}

pub fn process_actions_enabled(n: &Node) -> (r: bool)
    ensures
        r == spec_process_actions_enabled(n@),
{
    n.content_type == ContentType::Process || n.content_type == ContentType::App
}

/// A service action is enabled only for a service selection: starting needs
/// the service stopped, stopping and restarting need it running, and the
/// details view is always available.
pub open spec fn spec_service_action_enabled(action: ServiceAction, n: NodeView) -> bool {
    n.content_type == ContentType::Service && (match action {
        ServiceAction::Start => !n.service_running,
        ServiceAction::Stop => n.service_running,
        ServiceAction::Restart => n.service_running,
        ServiceAction::Details => true,
    })
}

pub fn service_action_enabled(action: ServiceAction, n: &Node) -> (r: bool)
    ensures
        r == spec_service_action_enabled(action, n@),
{
    if !(n.content_type == ContentType::Service) {
        return false;
    }
    match action {
        ServiceAction::Start => !n.service_running,
        ServiceAction::Stop => n.service_running,
        ServiceAction::Restart => n.service_running,
        ServiceAction::Details => true,
    }
}

} // verus!
