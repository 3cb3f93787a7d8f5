//! Board names of the fleet, by node id.

use vstd::prelude::*;

verus! {

/// The board name of a node id, empty outside the known fleet.
pub open spec fn board(node: u16) -> Seq<char> {
    match node {
        0 => "can_communication"@,
        1 => "front_controller"@,
        2 => "imu"@,
        3 => "rear_controller"@,
        4 => "steering"@,
        5 => "telemetry"@,
        _ => ""@,
    }
}

/// The board name of a node id, empty outside the known fleet.
pub fn board_name(node: u16) -> (name: &'static str)
    ensures
        name@ == board(node),
{
    match node {
        0 => "can_communication",
        1 => "front_controller",
        2 => "imu",
        3 => "rear_controller",
        4 => "steering",
        5 => "telemetry",
        _ => "",
    }
}

/// Six boards have names; the other nodes have none.
pub proof fn law_boards_have_names(node: u16)
    ensures
        node == 0 ==> board(node) == "can_communication"@,
        node == 1 ==> board(node) == "front_controller"@,
        node == 2 ==> board(node) == "imu"@,
        node == 3 ==> board(node) == "rear_controller"@,
        node == 4 ==> board(node) == "steering"@,
        node == 5 ==> board(node) == "telemetry"@,
        board(node).len() == 0 <==> node > 5,
{
    reveal_strlit("can_communication");
    reveal_strlit("front_controller");
    reveal_strlit("imu");
    reveal_strlit("rear_controller");
    reveal_strlit("steering");
    reveal_strlit("telemetry");
    reveal_strlit("");
}

} // verus!
