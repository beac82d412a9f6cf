use vstd::prelude::*;

verus! {

/// How hard the C compiler optimizes; this choice never changes what a program means.
#[derive(Clone, Copy, Debug, Eq, PartialEq, Structural)]
pub enum OptimizationProfile {
    Baseline,
    Production,
}

impl OptimizationProfile {
    /// The C compiler options of the profile.
    pub fn arguments(self) -> (arguments: Vec<&'static str>)
        ensures
            match self {
                OptimizationProfile::Baseline => arguments@.len() == 2 && arguments@[0]@ == "-O0"@
                    && arguments@[1]@ == "-Wno-error=#warnings"@,
                OptimizationProfile::Production => arguments@.len() == 2 && arguments@[0]@
                    == "-O2"@ && arguments@[1]@ == "-flto"@,
            },
    {
        let mut arguments: Vec<&'static str> = Vec::new();
        match self {
            OptimizationProfile::Baseline => {
                arguments.push("-O0");
                arguments.push("-Wno-error=#warnings");
            },
            OptimizationProfile::Production => {
                arguments.push("-O2");
                arguments.push("-flto");
            },
        }
        arguments
    }
}

} // verus!
