//! The Punkt trainer's state. Learning parameters from text is not done here:
//! training leaves the state as it is, and finishing turns it into parameters.
use vstd::prelude::*;
use crate::punkt::PunktParameters;

verus! {

/// The abbreviation types and collocations learned so far.
#[derive(Debug, Clone)]
pub struct PunktTrainer {
    pub abbrev_types: Vec<String>,
    pub collocations: Vec<(String, String)>,
}

impl PunktTrainer {
    /// A trainer that has learned nothing.
    pub fn new() -> (r: Self)
        ensures
            r.abbrev_types@.len() == 0,
            r.collocations@.len() == 0,
    {
        PunktTrainer { abbrev_types: Vec::new(), collocations: Vec::new() }
    }

    /// Training on `text` learns nothing: the state stays as it is.
    pub fn train(&mut self, text: &str)
        ensures
            final(self).abbrev_types == old(self).abbrev_types,
            final(self).collocations == old(self).collocations,
    {
        let _ = text;
    }

    /// Parameters with the learned abbreviation types and collocations, and no
    /// sentence starters or orthographic context.
    pub fn finalize(self) -> (r: PunktParameters)
        ensures
            r.abbrev_types == self.abbrev_types,
            r.collocations == self.collocations,
            r.sent_starters@.len() == 0,
            r.ortho_context@.len() == 0,
    {
        PunktParameters {
            abbrev_types: self.abbrev_types,
            collocations: self.collocations,
            sent_starters: Vec::new(),
            ortho_context: Vec::new(),
        }
    }
}

impl Default for PunktTrainer {
    fn default() -> (r: Self)
        ensures
            r.abbrev_types@.len() == 0,
            r.collocations@.len() == 0,
    {
        Self::new()
    }
}

} // verus!
