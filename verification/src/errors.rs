//! The engine's fatal error taxonomy.  Every error aborts the run; none is
//! silently swallowed and none is retried.
use vstd::prelude::*;

verus! {

#[derive(Clone, Copy, Debug, PartialEq, Eq, Structural)]
pub enum TrainError {
    /// Pruning removed every token from the corpus.
    EmptyVocabulary,
    /// Hierarchical softmax was requested over fewer than two tokens.
    InvalidVocabulary,
    /// The initial learning rate is not positive.
    InvalidRate,
    /// The corpus could not be read (raised by the I/O front end).
    CorpusIoError,
    /// The trained model could not be written (raised by the I/O front end).
    ExportIoError,
}

impl TrainError {
    /// A short stable name for reporting.
    pub fn name(&self) -> (r: &'static str)
        ensures
            r@ =~= match self {
                TrainError::EmptyVocabulary => "EmptyVocabulary"@,
                TrainError::InvalidVocabulary => "InvalidVocabulary"@,
                TrainError::InvalidRate => "InvalidRate"@,
                TrainError::CorpusIoError => "CorpusIoError"@,
                TrainError::ExportIoError => "ExportIoError"@,
            },
    {
        match self {
            TrainError::EmptyVocabulary => "EmptyVocabulary",
            TrainError::InvalidVocabulary => "InvalidVocabulary",
            TrainError::InvalidRate => "InvalidRate",
            TrainError::CorpusIoError => "CorpusIoError",
            TrainError::ExportIoError => "ExportIoError",
        }
    }
}

} // verus!
