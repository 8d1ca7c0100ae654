//! Connection-cost matrices.
use vstd::prelude::*;

pub mod dual_connector;
pub mod matrix_connector;
pub mod raw_connector;
pub mod scorer;

use crate::dictionary::connector::dual_connector::DualConnector;
use crate::dictionary::connector::matrix_connector::MatrixConnector;
use crate::dictionary::connector::raw_connector::RawConnector;
use crate::dictionary::mapper::ConnIdMapper;

verus! {

/// A table of connection costs indexed by a right id (of the left word) and a left
/// id (of the right word).
pub trait Connector {
    /// The internal tables agree with each other.
    spec fn conn_wf(&self) -> bool;

    /// Number of left ids.
    spec fn left_len(&self) -> nat;

    /// Number of right ids.
    spec fn right_len(&self) -> nat;

    /// The connection cost of a right id followed by a left id.
    spec fn cost_of(&self, right_id: int, left_id: int) -> int;

    /// Returns the number of left connection ids.
    fn num_left(&self) -> (r: usize)
        requires
            self.conn_wf(),
        ensures
            r == self.left_len(),
    ;

    /// Returns the number of right connection ids.
    fn num_right(&self) -> (r: usize)
        requires
            self.conn_wf(),
        ensures
            r == self.right_len(),
    ;

    /// Renames the connection ids by `mapper`: the cost of old ids `(r, l)` becomes
    /// the cost of the new ids `(mapper.right(r), mapper.left(l))`.
    fn map_connection_ids(&mut self, mapper: &ConnIdMapper)
        requires
            old(self).conn_wf(),
            mapper.wf(),
            mapper.left_map().len() == old(self).left_len(),
            mapper.right_map().len() == old(self).right_len(),
        ensures
            final(self).conn_wf(),
            final(self).left_len() == old(self).left_len(),
            final(self).right_len() == old(self).right_len(),
            forall|r: int, l: int|
                0 <= r < old(self).right_len() && 0 <= l < old(self).left_len() ==> final(self).cost_of(
                    mapper.right_map()[r] as int,
                    mapper.left_map()[l] as int,
                ) == old(self).cost_of(r, l),
    ;
}

/// A [`Connector`] that gives its costs.
pub trait ConnectorCost: Connector {
    /// Gets the connection cost of `right_id` followed by `left_id`.
    fn cost(&self, right_id: u16, left_id: u16) -> (r: i32)
        requires
            self.conn_wf(),
            (right_id as int) < self.right_len(),
            (left_id as int) < self.left_len(),
        ensures
            r as int == self.cost_of(right_id as int, left_id as int),
    ;
}

/// One of the three kinds of connectors.
pub enum ConnectorWrapper {
    /// A matrix of costs.
    Matrix(MatrixConnector),
    /// Costs computed from bigram features.
    Raw(RawConnector),
    /// A matrix for some features plus costs computed from the others.
    Dual(DualConnector),
}

impl Connector for ConnectorWrapper {
    open spec fn conn_wf(&self) -> bool {
        match self {
            ConnectorWrapper::Matrix(c) => c.conn_wf(),
            ConnectorWrapper::Raw(c) => c.conn_wf(),
            ConnectorWrapper::Dual(c) => c.conn_wf(),
        }
    }

    open spec fn left_len(&self) -> nat {
        match self {
            ConnectorWrapper::Matrix(c) => c.left_len(),
            ConnectorWrapper::Raw(c) => c.left_len(),
            ConnectorWrapper::Dual(c) => c.left_len(),
        }
    }

    open spec fn right_len(&self) -> nat {
        match self {
            ConnectorWrapper::Matrix(c) => c.right_len(),
            ConnectorWrapper::Raw(c) => c.right_len(),
            ConnectorWrapper::Dual(c) => c.right_len(),
        }
    }

    open spec fn cost_of(&self, right_id: int, left_id: int) -> int {
        match self {
            ConnectorWrapper::Matrix(c) => c.cost_of(right_id, left_id),
            ConnectorWrapper::Raw(c) => c.cost_of(right_id, left_id),
            ConnectorWrapper::Dual(c) => c.cost_of(right_id, left_id),
        }
    }

    fn num_left(&self) -> (r: usize) {
        match self {
            ConnectorWrapper::Matrix(c) => c.num_left(),
            ConnectorWrapper::Raw(c) => c.num_left(),
            ConnectorWrapper::Dual(c) => c.num_left(),
        }
    }

    fn num_right(&self) -> (r: usize) {
        match self {
            ConnectorWrapper::Matrix(c) => c.num_right(),
            ConnectorWrapper::Raw(c) => c.num_right(),
            ConnectorWrapper::Dual(c) => c.num_right(),
        }
    }

    fn map_connection_ids(&mut self, mapper: &ConnIdMapper) {
        match self {
            ConnectorWrapper::Matrix(c) => c.map_connection_ids(mapper),
            ConnectorWrapper::Raw(c) => c.map_connection_ids(mapper),
            ConnectorWrapper::Dual(c) => c.map_connection_ids(mapper),
        }
    }
}

impl ConnectorCost for ConnectorWrapper {
    fn cost(&self, right_id: u16, left_id: u16) -> (r: i32) {
        match self {
            ConnectorWrapper::Matrix(c) => c.cost(right_id, left_id),
            ConnectorWrapper::Raw(c) => c.cost(right_id, left_id),
            ConnectorWrapper::Dual(c) => c.cost(right_id, left_id),
        }
    }
}

} // verus!
