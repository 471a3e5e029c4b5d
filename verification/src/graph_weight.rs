use vstd::prelude::*;

verus! {

/// Node weight of the time-expanded timetable graph.
#[derive(Debug, Clone)]
pub enum TimetableNode {
    /// departure of a train ride
    Departure { trip_id: u64, time: u64, station_id: u64, station_name: String },
    /// arrival of a train ride
    Arrival { trip_id: u64, time: u64, station_id: u64, station_name: String },
    /// transfer node at a station, existing for every departure at that station
    Transfer { time: u64, station_id: u64, station_name: String },
    /// single collecting node of all arrivals at a station
    MainArrival { station_id: u64, station_name: String },
}

impl TimetableNode {
    /// A copy of the node.
    pub fn duplicate(&self) -> (copy: Self)
        ensures
            copy == *self,
    {
        match self {
            TimetableNode::Departure { trip_id, time, station_id, station_name } => TimetableNode::Departure {
                trip_id: *trip_id,
                time: *time,
                station_id: *station_id,
                station_name: station_name.clone(),
            },
            TimetableNode::Arrival { trip_id, time, station_id, station_name } => TimetableNode::Arrival {
                trip_id: *trip_id,
                time: *time,
                station_id: *station_id,
                station_name: station_name.clone(),
            },
            TimetableNode::Transfer { time, station_id, station_name } => TimetableNode::Transfer {
                time: *time,
                station_id: *station_id,
                station_name: station_name.clone(),
            },
            TimetableNode::MainArrival { station_id, station_name } => TimetableNode::MainArrival {
                station_id: *station_id,
                station_name: station_name.clone(),
            },
        }
    }

    pub open spec fn spec_time(&self) -> Option<u64> {
        match self {
            TimetableNode::Departure { time, .. } => Some(*time),
            TimetableNode::Arrival { time, .. } => Some(*time),
            TimetableNode::Transfer { time, .. } => Some(*time),
            TimetableNode::MainArrival { .. } => None,
        }
    }

    pub open spec fn spec_station_id(&self) -> Option<u64> {
        match self {
            TimetableNode::Departure { station_id, .. } => Some(*station_id),
            TimetableNode::Arrival { station_id, .. } => Some(*station_id),
            TimetableNode::Transfer { station_id, .. } => Some(*station_id),
            TimetableNode::MainArrival { station_id, .. } => Some(*station_id),
        }
    }

    pub open spec fn spec_station_name(&self) -> String {
        match self {
            TimetableNode::Departure { station_name, .. } => *station_name,
            TimetableNode::Arrival { station_name, .. } => *station_name,
            TimetableNode::Transfer { station_name, .. } => *station_name,
            TimetableNode::MainArrival { station_name, .. } => *station_name,
        }
    }

    pub open spec fn spec_trip_id(&self) -> Option<u64> {
        match self {
            TimetableNode::Departure { trip_id, .. } => Some(*trip_id),
            TimetableNode::Arrival { trip_id, .. } => Some(*trip_id),
            TimetableNode::Transfer { .. } => None,
            TimetableNode::MainArrival { .. } => None,
        }
    }

    /// time of the node; a main arrival node has no time
    #[verifier::when_used_as_spec(spec_time)]
    pub fn time(&self) -> (t: Option<u64>)
        ensures
            t == self.spec_time(),
    {
        match self {
            TimetableNode::Departure { time, .. } => Some(*time),
            TimetableNode::Arrival { time, .. } => Some(*time),
            TimetableNode::Transfer { time, .. } => Some(*time),
            _ => None,
        }
    }

    /// id of the station the node belongs to
    #[verifier::when_used_as_spec(spec_station_id)]
    pub fn station_id(&self) -> (s: Option<u64>)
        ensures
            s == self.spec_station_id(),
    {
        match self {
            TimetableNode::Departure { station_id, .. } => Some(*station_id),
            TimetableNode::Arrival { station_id, .. } => Some(*station_id),
            TimetableNode::Transfer { station_id, .. } => Some(*station_id),
            TimetableNode::MainArrival { station_id, .. } => Some(*station_id),
        }
    }

    /// name of the station the node belongs to
    pub fn station_name(&self) -> (s: String)
        ensures
            s@ == self.spec_station_name()@,
    {
        match self {
            TimetableNode::Departure { station_name, .. } => station_name.clone(),
            TimetableNode::Arrival { station_name, .. } => station_name.clone(),
            TimetableNode::Transfer { station_name, .. } => station_name.clone(),
            TimetableNode::MainArrival { station_name, .. } => station_name.clone(),
        }
    }

    /// true iff the node is an arrival at the given station
    pub fn is_arrival_at_station(&self, target_station_id: u64) -> (b: bool)
        ensures
            b == (self is Arrival && self->Arrival_station_id == target_station_id),
    {
        match self {
            TimetableNode::Arrival { station_id, .. } => *station_id == target_station_id,
            _ => false,
        }
    }

    pub fn is_departure(&self) -> (b: bool)
        ensures
            b == self is Departure,
    {
        match self {
            TimetableNode::Departure { .. } => true,
            _ => false,
        }
    }

    pub fn is_arrival(&self) -> (b: bool)
        ensures
            b == self is Arrival,
    {
        match self {
            TimetableNode::Arrival { .. } => true,
            _ => false,
        }
    }

    pub fn is_transfer(&self) -> (b: bool)
        ensures
            b == self is Transfer,
    {
        match self {
            TimetableNode::Transfer { .. } => true,
            _ => false,
        }
    }

    pub fn is_main_arrival(&self) -> (b: bool)
        ensures
            b == self is MainArrival,
    {
        match self {
            TimetableNode::MainArrival { .. } => true,
            _ => false,
        }
    }

    /// name of the node's kind
    pub fn kind_as_str(&self) -> (s: &str)
        ensures
            self is Departure ==> s@ == "Departure"@,
            self is Arrival ==> s@ == "Arrival"@,
            self is Transfer ==> s@ == "Transfer"@,
            self is MainArrival ==> s@ == "MainArrival"@,
    {
        match self {
            TimetableNode::Departure { .. } => "Departure",
            TimetableNode::Arrival { .. } => "Arrival",
            TimetableNode::Transfer { .. } => "Transfer",
            TimetableNode::MainArrival { .. } => "MainArrival",
        }
    }

    /// trip of a departure or arrival node
    #[verifier::when_used_as_spec(spec_trip_id)]
    pub fn trip_id(&self) -> (t: Option<u64>)
        ensures
            t == self.spec_trip_id(),
    {
        match self {
            TimetableNode::Departure { trip_id, .. } => Some(*trip_id),
            TimetableNode::Arrival { trip_id, .. } => Some(*trip_id),
            TimetableNode::Transfer { .. } => None,
            TimetableNode::MainArrival { .. } => None,
        }
    }
}

/// Edge weight of the time-expanded timetable graph.
#[derive(Debug, Clone, Copy, PartialEq, Eq, Structural)]
pub enum TimetableEdge {
    /// edge between departure and arrival of a ride
    Trip { duration: u64, capacity: u64, utilization: u64 },
    /// edge between arrival and departure in the same train (stay in the train)
    WaitInTrain { duration: u64 },
    /// edge between transfer node and departure
    Board,
    /// edge between arrival and transfer
    Alight { duration: u64 },
    /// edge between two transfer nodes
    WaitAtStation { duration: u64 },
    /// edge between arrival and next transfer node at other station
    Walk { duration: u64 },
    /// connects all arrivals to a main arrival node
    MainArrivalRelation,
}

impl TimetableEdge {
    pub open spec fn spec_travel_cost(&self) -> u64 {
        match self {
            TimetableEdge::Trip { .. } => 2,
            TimetableEdge::WaitInTrain { .. } => 1,
            TimetableEdge::Alight { .. } => 4,
            TimetableEdge::WaitAtStation { .. } => 3,
            TimetableEdge::Walk { .. } => 10,
            TimetableEdge::Board => 5,
            TimetableEdge::MainArrivalRelation => 0,
        }
    }

    /// squared overload of a trip edge (0 for all other edges and for trips below capacity)
    pub open spec fn spec_utilization_cost(&self) -> int {
        match self {
            TimetableEdge::Trip { capacity, utilization, .. } => if *utilization < *capacity {
                0
            } else {
                (*utilization - *capacity) * (*utilization - *capacity)
            },
            _ => 0,
        }
    }

    /// the utilization cost of this edge fits in a `u64`
    pub open spec fn utilization_cost_fits(&self) -> bool {
        self.spec_utilization_cost() <= u64::MAX
    }

    pub open spec fn spec_duration(&self) -> u64 {
        match self {
            TimetableEdge::Trip { duration, .. } => *duration,
            TimetableEdge::WaitInTrain { duration } => *duration,
            TimetableEdge::Alight { duration } => *duration,
            TimetableEdge::WaitAtStation { duration } => *duration,
            TimetableEdge::Walk { duration } => *duration,
            _ => 0,
        }
    }

    pub open spec fn spec_capacity(&self) -> u64 {
        match self {
            TimetableEdge::Trip { capacity, .. } => *capacity,
            _ => u64::MAX,
        }
    }

    pub open spec fn spec_utilization(&self) -> u64 {
        match self {
            TimetableEdge::Trip { utilization, .. } => *utilization,
            _ => 0,
        }
    }

    /// the edge with `amount` more passengers (only trip edges track passengers)
    pub open spec fn with_added_utilization(self, amount: int) -> TimetableEdge {
        match self {
            TimetableEdge::Trip { duration, capacity, utilization } => TimetableEdge::Trip {
                duration,
                capacity,
                utilization: (utilization + amount) as u64,
            },
            _ => self,
        }
    }

    /// virtual cost of taking the edge (effort of a route)
    #[verifier::when_used_as_spec(spec_travel_cost)]
    pub fn travel_cost(&self) -> (c: u64)
        ensures
            c == self.spec_travel_cost(),
    {
        match self {
            TimetableEdge::Trip { .. } => 2,
            TimetableEdge::WaitInTrain { .. } => 1,
            TimetableEdge::Alight { .. } => 4,
            TimetableEdge::WaitAtStation { .. } => 3,
            TimetableEdge::Walk { .. } => 10,
            TimetableEdge::Board => 5,
            TimetableEdge::MainArrivalRelation => 0,
        }
    }

    /// penalty for utilization of a trip at or over its capacity: the squared overload
    pub fn utilization_cost(&self) -> (c: u64)
        requires
            self.utilization_cost_fits(),
        ensures
            c == self.spec_utilization_cost(),
    {
        match self {
            TimetableEdge::Trip { capacity, utilization, .. } => {
                if *utilization < *capacity {
                    0
                } else {
                    let diff = *utilization - *capacity;
                    diff * diff
                }
            },
            _ => 0,
        }
    }

    pub fn is_trip(&self) -> (b: bool)
        ensures
            b == self is Trip,
    {
        match self {
            TimetableEdge::Trip { .. } => true,
            _ => false,
        }
    }

    pub fn is_wait_in_train(&self) -> (b: bool)
        ensures
            b == self is WaitInTrain,
    {
        match self {
            TimetableEdge::WaitInTrain { .. } => true,
            _ => false,
        }
    }

    pub fn is_walk(&self) -> (b: bool)
        ensures
            b == self is Walk,
    {
        match self {
            TimetableEdge::Walk { .. } => true,
            _ => false,
        }
    }

    pub fn is_alight(&self) -> (b: bool)
        ensures
            b == self is Alight,
    {
        match self {
            TimetableEdge::Alight { .. } => true,
            _ => false,
        }
    }

    pub fn is_wait_at_station(&self) -> (b: bool)
        ensures
            b == self is WaitAtStation,
    {
        match self {
            TimetableEdge::WaitAtStation { .. } => true,
            _ => false,
        }
    }

    pub fn is_board(&self) -> (b: bool)
        ensures
            b == self is Board,
    {
        match self {
            TimetableEdge::Board => true,
            _ => false,
        }
    }

    pub fn is_main_arrival_relation(&self) -> (b: bool)
        ensures
            b == self is MainArrivalRelation,
    {
        match self {
            TimetableEdge::MainArrivalRelation => true,
            _ => false,
        }
    }

    /// duration of the edge, 0 for board and main-arrival edges
    #[verifier::when_used_as_spec(spec_duration)]
    pub fn duration(&self) -> (d: u64)
        ensures
            d == self.spec_duration(),
    {
        match self {
            TimetableEdge::Trip { duration, .. } => *duration,
            TimetableEdge::WaitInTrain { duration } => *duration,
            TimetableEdge::Alight { duration } => *duration,
            TimetableEdge::WaitAtStation { duration } => *duration,
            TimetableEdge::Walk { duration } => *duration,
            _ => 0,
        }
    }

    /// capacity of a trip; all other edges are unlimited (`u64::MAX`)
    #[verifier::when_used_as_spec(spec_capacity)]
    pub fn capacity(&self) -> (c: u64)
        ensures
            c == self.spec_capacity(),
    {
        match self {
            TimetableEdge::Trip { capacity, .. } => *capacity,
            _ => u64::MAX,
        }
    }

    /// adds passengers to a trip edge; other edges are left as they are
    pub fn increase_utilization(&mut self, addend: u64)
        requires
            old(self).spec_utilization() + addend <= u64::MAX,
        ensures
            *final(self) == old(self).with_added_utilization(addend as int),
    {
        match self {
            TimetableEdge::Trip { utilization, .. } => *utilization = *utilization + addend,
            _ => {},
        }
    }

    /// removes passengers from a trip edge; other edges are left as they are
    pub fn decrease_utilization(&mut self, subtrahend: u64)
        requires
            (*old(self)) is Trip ==> subtrahend <= old(self).spec_utilization(),
        ensures
            *final(self) == old(self).with_added_utilization(-subtrahend),
    {
        match self {
            TimetableEdge::Trip { utilization, .. } => *utilization = *utilization - subtrahend,
            _ => {},
        }
    }

    /// passengers on a trip; 0 for all other edges
    #[verifier::when_used_as_spec(spec_utilization)]
    pub fn utilization(&self) -> (u: u64)
        ensures
            u == self.spec_utilization(),
    {
        match self {
            TimetableEdge::Trip { utilization, .. } => *utilization,
            _ => 0,
        }
    }

    /// name of the edge's kind
    pub fn kind_as_str(&self) -> (s: &str)
        ensures
            self is Trip ==> s@ == "Trip"@,
            self is WaitInTrain ==> s@ == "WaitInTrain"@,
            self is Board ==> s@ == "Board"@,
            self is Alight ==> s@ == "Alight"@,
            self is WaitAtStation ==> s@ == "WaitAtStation"@,
            self is Walk ==> s@ == "Walk"@,
            self is MainArrivalRelation ==> s@ == "MainArrivalRelation"@,
    {
        match self {
            TimetableEdge::Trip { .. } => "Trip",
            TimetableEdge::WaitInTrain { .. } => "WaitInTrain",
            TimetableEdge::Board => "Board",
            TimetableEdge::Alight { .. } => "Alight",
            TimetableEdge::WaitAtStation { .. } => "WaitAtStation",
            TimetableEdge::Walk { .. } => "Walk",
            TimetableEdge::MainArrivalRelation => "MainArrivalRelation",
        }
    }
}

/// Adding passengers to an edge and removing the same number again gives back the edge.
pub proof fn lemma_utilization_round_trip(edge: TimetableEdge, amount: u64)
    requires
        edge.spec_utilization() + amount <= u64::MAX,
    ensures
        edge.with_added_utilization(amount as int).with_added_utilization(-amount) == edge,
{
}

} // verus!
