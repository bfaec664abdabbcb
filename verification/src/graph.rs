//! The knowledge graph and the questions asked of the delta-K engine.
//!
//! The engine that scores a submission is not part of this library. Functions
//! that need it take it as a closure from an [`Assessment`] to the bits of a
//! delta-K value, and their contracts speak of the function that it computes.

use vstd::prelude::*;

use crate::Embedding;

verus! {

/// The number of coordinates of an embedding.
pub const DIM: usize = 64;

/// One accepted piece of knowledge.
#[derive(Clone, Copy, Debug, PartialEq, Eq)]
pub struct GraphNode {
    /// The position at which the node was added.
    pub node_id: u64,
    pub embedding: Embedding,
    pub domain: u32,
}

/// The accepted knowledge, in the order in which it was added.
#[derive(Debug)]
pub struct CognitiveGraph {
    pub nodes: Vec<GraphNode>,
}

impl View for CognitiveGraph {
    type V = Seq<GraphNode>;

    open spec fn view(&self) -> Seq<GraphNode> {
        self.nodes@
    }
}

/// A graph with one more node.
pub open spec fn grown(graph: Seq<GraphNode>, embedding: Embedding, domain: u32) -> Seq<GraphNode> {
    graph.push(GraphNode { node_id: graph.len() as u64, embedding, domain })
}

impl CognitiveGraph {
    /// The empty graph.
    pub fn new() -> (r: CognitiveGraph)
        ensures
            r@ == Seq::<GraphNode>::empty(),
    {
        CognitiveGraph { nodes: Vec::new() }
    }

    /// The number of nodes.
    pub fn len(&self) -> (r: usize)
        ensures
            r == self@.len(),
    {
        self.nodes.len()
    }

    /// Adds a node at the end.
    pub fn add(&mut self, embedding: Embedding, domain: u32)
        ensures
            final(self)@ == grown(old(self)@, embedding, domain),
    {
        let node_id: u64 = self.nodes.len() as u64;
        self.nodes.push(GraphNode { node_id, embedding, domain });
    }
}

impl Clone for CognitiveGraph {
    fn clone(&self) -> (r: CognitiveGraph)
        ensures
            r@ == self@,
    {
        let nodes = self.nodes.clone();
        assert(nodes@ =~= self.nodes@);
        CognitiveGraph { nodes }
    }
}

/// The part of a submission that the engine looks at.
#[derive(Clone, Copy, Debug)]
pub struct Submission {
    pub embedding: Embedding,
    pub domain: u32,
    pub timestamp_days: u32,
}

/// All that a delta-K value depends on: the submission, the graph it would join,
/// the reputation and score of each assessor, the replications that succeeded and
/// that were tried, and the present time.
pub struct Assessment<'a> {
    pub submission: Submission,
    pub graph: &'a [GraphNode],
    pub reviews: &'a [(u32, u32)],
    pub replications: (u32, u32),
    pub now_days: u32,
}

#[verifier::ext_equal]
pub struct AssessmentView {
    pub submission: Submission,
    pub graph: Seq<GraphNode>,
    pub reviews: Seq<(u32, u32)>,
    pub replications: (u32, u32),
    pub now_days: u32,
}

impl<'a> View for Assessment<'a> {
    type V = AssessmentView;

    open spec fn view(&self) -> AssessmentView {
        AssessmentView {
            submission: self.submission,
            graph: self.graph@,
            reviews: self.reviews@,
            replications: self.replications,
            now_days: self.now_days,
        }
    }
}

/// A delta-K function.
pub type Judge = spec_fn(AssessmentView) -> u32;

/// Whether `engine` may answer `q` with `dk`.
pub open spec fn answers<F: Fn(&Assessment) -> u32>(engine: F, q: AssessmentView, dk: u32) -> bool {
    exists|a: &Assessment| #[trigger] a@ == q && call_ensures(engine, (a,), dk)
}

/// Whether `engine` can be asked anything and gives equal questions equal answers.
pub open spec fn is_function<F: Fn(&Assessment) -> u32>(engine: F) -> bool {
    &&& forall|a: &Assessment| #[trigger] call_requires(engine, (a,))
    &&& forall|q: AssessmentView, x: u32, y: u32|
        #[trigger] answers(engine, q, x) && #[trigger] answers(engine, q, y) ==> x == y
}

/// The function that `engine` computes.
pub open spec fn judge<F: Fn(&Assessment) -> u32>(engine: F) -> Judge {
    |q: AssessmentView| choose|dk: u32| answers(engine, q, dk)
}

/// Asks the engine.
pub fn compute_delta_k<F: Fn(&Assessment) -> u32>(engine: &F, a: &Assessment) -> (dk: u32)
    requires
        is_function(*engine),
    ensures
        dk == judge(*engine)(a@),
{
    let dk: u32 = engine(a);
    assert(answers(*engine, a@, dk));
    dk
}

} // verus!
