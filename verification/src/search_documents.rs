//! The search for documents: a question handed to whatever store answers
//! it.

use vstd::prelude::*;

verus! {

/// A question to the store: where to look, and what for.
pub struct QueryParameters {
    pub containers: Vec<String>,
    pub dsl: String,
}

/// Why a store could not answer.
pub struct QueryError {
    pub details: String,
}

/// Why a use case failed.
pub enum UseCaseError {
    /// The store could not answer.
    Execution { source: QueryError },
}

/// A store that answers questions with documents of kind `D`.
pub trait Query<D>: Send + Sync {
    /// `found` is an answer that the store may give to the question. A
    /// store that says nothing of its answers may give any.
    open spec fn answers(
        &self,
        query_parameters: QueryParameters,
        found: Result<Vec<D>, QueryError>,
    ) -> bool {
        true
    }

    /// The documents that answer the question, or why there is no answer.
    fn search_documents(&self, query_parameters: QueryParameters) -> (found: Result<
        Vec<D>,
        QueryError,
    >)
        ensures
            self.answers(query_parameters, found),
    ;
}

/// What a search answers when the store has answered `found`: the
/// documents it found, or its failure as the failure of the search.
pub open spec fn outcome<D>(found: Result<Vec<D>, QueryError>) -> Result<Vec<D>, UseCaseError> {
    match found {
        Ok(docs) => Ok(docs),
        Err(e) => Err(UseCaseError::Execution { source: e }),
    }
}

/// The search for documents of kind `D` in one store.
#[verifier::reject_recursive_types(D)]
pub struct SearchDocuments<D> {
    pub query: Box<dyn Query<D>>,
}

/// What a search is asked.
pub struct SearchDocumentsParameters {
    pub query_parameters: QueryParameters,
}

/// What a search answers when the store has answered `found`: the
/// documents it found, or its failure as the failure of the search.
pub fn execution_outcome<D>(found: Result<Vec<D>, QueryError>) -> (r: Result<
    Vec<D>,
    UseCaseError,
>)
    ensures
        r == outcome(found),
{
    match found {
        Ok(docs) => Ok(docs),
        Err(e) => Err(UseCaseError::Execution { source: e }),
    }
}

impl<D> SearchDocuments<D> {
    /// The search in the given store.
    pub fn new(query: Box<dyn Query<D>>) -> (r: Self)
        ensures
            r == (SearchDocuments { query }),
    {
        SearchDocuments { query }
    }

    /// Asks the store the question as it stands in `param`, and answers
    /// what the store answers: the documents it found, or its failure as
    /// the failure of the search.
    pub fn execute(&self, param: SearchDocumentsParameters) -> (r: Result<Vec<D>, UseCaseError>)
        ensures
            exists|found: Result<Vec<D>, QueryError>|
                #[trigger] self.query.answers(param.query_parameters, found) && r == outcome(
                    found,
                ),
    {
        let found = self.query.search_documents(param.query_parameters);
        execution_outcome(found)
    }
}

} // verus!
