//! Shape rules of the feedforward network with one hidden layer.
//!
//! The network owns two weight matrices: input to hidden, with one row per
//! hidden node and one column per input node, and hidden to output, with
//! one row per output node and one column per hidden node. Everything here
//! speaks of lengths and dimensions only.

use vstd::prelude::*;

verus! {

/// The vector whose length did not fit the network.
#[derive(Debug, Clone, Copy, PartialEq, Eq)]
pub enum Operand {
    /// The vector fed into the input layer.
    Input,
    /// The vector the output layer is trained towards.
    Target,
}

/// A vector was handed to the network with a length other than the one the
/// network was configured with.
#[derive(Debug, Clone, Copy, PartialEq, Eq)]
pub struct ShapeMismatchError {
    pub operand: Operand,
    pub expected: usize,
    pub actual: usize,
}

/// The node counts of the three layers.
#[derive(Debug, Clone, Copy, PartialEq, Eq)]
pub struct NetworkShape {
    pub input_nodes: usize,
    pub hidden_nodes: usize,
    pub output_nodes: usize,
}

impl NetworkShape {
    /// Every layer has at least one node.
    pub open spec fn positive(self) -> bool {
        self.input_nodes > 0 && self.hidden_nodes > 0 && self.output_nodes > 0
    }

    /// Rows and columns of the input-to-hidden weight matrix.
    pub open spec fn input_hidden_dims(self) -> (usize, usize) {
        (self.hidden_nodes, self.input_nodes)
    }

    /// Rows and columns of the hidden-to-output weight matrix.
    pub open spec fn hidden_output_dims(self) -> (usize, usize) {
        (self.output_nodes, self.hidden_nodes)
    }

    /// The mismatch reported for an input vector of length `actual`.
    pub open spec fn input_mismatch(self, actual: usize) -> ShapeMismatchError {
        ShapeMismatchError { operand: Operand::Input, expected: self.input_nodes, actual }
    }

    /// The mismatch reported for a target vector of length `actual`.
    pub open spec fn target_mismatch(self, actual: usize) -> ShapeMismatchError {
        ShapeMismatchError { operand: Operand::Target, expected: self.output_nodes, actual }
    }

    /// What a forward pass on an input of length `input_len` yields: the length
    /// of the output vector, or the mismatch of the input.
    pub open spec fn query_outcome(self, input_len: usize) -> Result<usize, ShapeMismatchError> {
        if input_len == self.input_nodes {
            Ok(self.output_nodes)
        } else {
            Err(self.input_mismatch(input_len))
        }
    }

    /// What a training step on vectors of these lengths yields: nothing, or the
    /// mismatch of the input, or else that of the target.
    pub open spec fn train_outcome(self, input_len: usize, target_len: usize) -> Result<
        (),
        ShapeMismatchError,
    > {
        if input_len != self.input_nodes {
            Err(self.input_mismatch(input_len))
        } else if target_len != self.output_nodes {
            Err(self.target_mismatch(target_len))
        } else {
            Ok(())
        }
    }

    /// The shape with the given node counts, provided that none of them is zero.
    pub fn new(input_nodes: usize, hidden_nodes: usize, output_nodes: usize) -> (r: Option<
        NetworkShape,
    >)
        ensures
            r == if input_nodes > 0 && hidden_nodes > 0 && output_nodes > 0 {
                Some(NetworkShape { input_nodes, hidden_nodes, output_nodes })
            } else {
                None
            },
            r is Some ==> r->Some_0.positive(),
    {
        if input_nodes > 0 && hidden_nodes > 0 && output_nodes > 0 {
            Some(NetworkShape { input_nodes, hidden_nodes, output_nodes })
        } else {
            None
        }
    }

    /// Recovers the shape from the dimensions, rows first, of the two weight
    /// matrices. They belong to one network exactly when the rows of the first
    /// are as many as the columns of the second and no dimension is zero.
    pub fn of_weights(input_hidden: (usize, usize), hidden_output: (usize, usize)) -> (r: Option<
        NetworkShape,
    >)
        ensures
            r is Some <==> input_hidden.0 == hidden_output.1 && input_hidden.0 > 0
                && input_hidden.1 > 0 && hidden_output.0 > 0,
            r is Some ==> r->Some_0.positive() && r->Some_0.input_hidden_dims() == input_hidden
                && r->Some_0.hidden_output_dims() == hidden_output,
    {
        if input_hidden.0 == hidden_output.1 {
            NetworkShape::new(input_hidden.1, input_hidden.0, hidden_output.0)
        } else {
            None
        }
    }

    /// Rows and columns of the input-to-hidden weight matrix.
    pub fn input_hidden(&self) -> (r: (usize, usize))
        ensures
            r == self.input_hidden_dims(),
    {
        (self.hidden_nodes, self.input_nodes)
    }

    /// Rows and columns of the hidden-to-output weight matrix.
    pub fn hidden_output(&self) -> (r: (usize, usize))
        ensures
            r == self.hidden_output_dims(),
    {
        (self.output_nodes, self.hidden_nodes)
    }

    /// Decides whether a forward pass may run on an input of length `input_len`,
    /// and if so how long its output is.
    pub fn check_query(&self, input_len: usize) -> (r: Result<usize, ShapeMismatchError>)
        ensures
            r == self.query_outcome(input_len),
    {
        if input_len == self.input_nodes {
            Ok(self.output_nodes)
        } else {
            Err(
                ShapeMismatchError {
                    operand: Operand::Input,
                    expected: self.input_nodes,
                    actual: input_len,
                },
            )
        }
    }

    /// Decides whether a training step may run on an input of length `input_len`
    /// and a target of length `target_len`. The input is judged first.
    pub fn check_train(&self, input_len: usize, target_len: usize) -> (r: Result<
        (),
        ShapeMismatchError,
    >)
        ensures
            r == self.train_outcome(input_len, target_len),
    {
        if input_len != self.input_nodes {
            Err(
                ShapeMismatchError {
                    operand: Operand::Input,
                    expected: self.input_nodes,
                    actual: input_len,
                },
            )
        } else if target_len != self.output_nodes {
            Err(
                ShapeMismatchError {
                    operand: Operand::Target,
                    expected: self.output_nodes,
                    actual: target_len,
                },
            )
        } else {
            Ok(())
        }
    }
}

/// A forward pass is refused exactly when the input has the wrong length, and
/// a training step runs exactly on the inputs a forward pass accepts together
/// with a target as long as the output of that pass.
pub proof fn lemma_train_accepts_what_query_yields(
    shape: NetworkShape,
    input_len: usize,
    target_len: usize,
)
    ensures
        shape.query_outcome(input_len) is Err <==> input_len != shape.input_nodes,
        shape.train_outcome(input_len, target_len) is Ok <==> shape.query_outcome(input_len)
            == Ok::<usize, ShapeMismatchError>(target_len),
{
}

} // verus!
