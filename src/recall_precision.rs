use vstd::prelude::*;

verus! {

/// The three files of a recall/precision run: the truth segments, the predicted
/// segments and the report to write.
pub struct RecallPrecision {
    resultfile: String,
    accurityfile: String,
    outputfile: String,
}

impl RecallPrecision {
    pub fn new(resultfile: &str, accurityfile: &str, outputfile: &str) -> (r: RecallPrecision)
        ensures
            r.resultfile()@ == resultfile@,
            r.accurityfile()@ == accurityfile@,
            r.outputfile()@ == outputfile@,
    {
        RecallPrecision {
            resultfile: resultfile.to_string(),
            accurityfile: accurityfile.to_string(),
            outputfile: outputfile.to_string(),
        }
    }

    pub closed spec fn resultfile(&self) -> String {
        self.resultfile
    }

    pub closed spec fn accurityfile(&self) -> String {
        self.accurityfile
    }

    pub closed spec fn outputfile(&self) -> String {
        self.outputfile
    }

    /// Path of the truth segment file.
    pub fn truth_path(&self) -> (r: &str)
        ensures
            r@ == self.resultfile()@,
    {
        self.resultfile.as_str()
    }

    /// Path of the predicted segment file.
    pub fn predicted_path(&self) -> (r: &str)
        ensures
            r@ == self.accurityfile()@,
    {
        self.accurityfile.as_str()
    }

    /// Path of the report.
    pub fn output_path(&self) -> (r: &str)
        ensures
            r@ == self.outputfile()@,
    {
        self.outputfile.as_str()
    }
}

} // verus!
