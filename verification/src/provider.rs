use vstd::prelude::*;
use vstd::string::*;
use crate::dtype::same_text;
use crate::error::BridgeError;

verus! {

/// What the caller is told once the accelerator has been registered.
pub open spec fn registered_text() -> Seq<char> {
    "CUDA registered..."@
}

/// The answer to a caller who asks whether the accelerator can be used, from
/// what the engine said when it was asked: the engine's answer, or its
/// complaint in its own words.
pub fn is_cuda_available(probe: Result<bool, String>) -> (r: Result<bool, BridgeError>)
    ensures
        r == (match probe {
            Ok(available) => Ok::<bool, BridgeError>(available),
            Err(text) => Err(BridgeError::LoadFailure(text)),
        }),
{
    match probe {
        Ok(available) => Ok(available),
        Err(text) => Err(BridgeError::LoadFailure(text)),
    }
}

/// The answer to a caller who asked for the accelerator to be registered,
/// from what the engine said: a fixed confirmation, or the engine's
/// complaint in its own words.
pub fn register_cuda(outcome: Result<(), String>) -> (r: Result<String, BridgeError>)
    ensures
        match outcome {
            Ok(_) => r matches Ok(text) && text@ == registered_text(),
            Err(complaint) => r == Err::<String, BridgeError>(BridgeError::LoadFailure(complaint)),
        },
{
    match outcome {
        Ok(_) => Ok(String::from_str("CUDA registered...")),
        Err(complaint) => Err(BridgeError::LoadFailure(complaint)),
    }
}

/// A backend that the engine can be asked to use.
#[derive(Clone, Copy, Debug, PartialEq, Eq, Structural)]
pub enum Provider {
    Cpu,
    Cuda,
}

/// How far the engine may rewrite a graph when it loads it.
#[derive(Clone, Copy, Debug, PartialEq, Eq, Structural)]
pub enum Optimization {
    Disable,
    Level1,
    Level2,
    Level3,
}

/// The backend that a name stands for, if any.
pub open spec fn provider_of_name(name: Seq<char>) -> Option<Provider> {
    if name == "cpu"@ {
        Some(Provider::Cpu)
    } else if name == "cuda"@ {
        Some(Provider::Cuda)
    } else {
        None
    }
}

/// The level that a number asks for: one, two and three name a level, any
/// other number switches rewriting off.
pub open spec fn optimization_of(level: int) -> Optimization {
    if level == 1 {
        Optimization::Level1
    } else if level == 2 {
        Optimization::Level2
    } else if level == 3 {
        Optimization::Level3
    } else {
        Optimization::Disable
    }
}

impl Provider {
    /// Reads a backend's name.
    pub fn from_name(name: &str) -> (provider: Option<Provider>)
        ensures
            provider == provider_of_name(name@),
    {
        if same_text(name, "cpu") {
            Some(Provider::Cpu)
        } else if same_text(name, "cuda") {
            Some(Provider::Cuda)
        } else {
            None
        }
    }
}

impl Optimization {
    /// Reads a level from the number that a caller gives.
    pub fn from_level(level: i32) -> (optimization: Optimization)
        ensures
            optimization == optimization_of(level as int),
    {
        if level == 1 {
            Optimization::Level1
        } else if level == 2 {
            Optimization::Level2
        } else if level == 3 {
            Optimization::Level3
        } else {
            Optimization::Disable
        }
    }
}

} // verus!
