use vstd::prelude::*;

verus! {

/// Error reported by the `ec_gpu_gen` crate.
#[verifier::external_type_specification]
#[verifier::external_body]
pub struct ExEcError(ec_gpu_gen::EcError);

/// Failure of the optional hardware accelerator. Every variant is
/// transient: the computation goes on without the accelerator.
pub enum GPUError {
    /// A failure described by a message.
    Simple(&'static str),
    /// The GPU tools failed; the message of their error. (The tools crate
    /// links the CUDA or OpenCL system library, so the library holds what
    /// the error says rather than the error itself.)
    GpuTools(String),
    /// A process of higher priority holds the GPU.
    GPUTaken,
    /// No kernel was initialized.
    KernelUninitialized,
    /// The kernel generator failed.
    EcGpu(ec_gpu_gen::EcError),
    /// The accelerator is switched off.
    GPUDisabled,
}

impl From<ec_gpu_gen::EcError> for GPUError {
    fn from(e: ec_gpu_gen::EcError) -> (r: GPUError)
        ensures
            r == GPUError::EcGpu(e),
    {
        GPUError::EcGpu(e)
    }
}

impl vstd::std_specs::convert::FromSpecImpl<ec_gpu_gen::EcError> for GPUError {
    open spec fn obeys_from_spec() -> bool {
        true
    }

    open spec fn from_spec(e: ec_gpu_gen::EcError) -> GPUError {
        GPUError::EcGpu(e)
    }
}

/// Result of a computation on the accelerator.
pub type GPUResult<T> = Result<T, GPUError>;

/// The accelerator error that a panic payload stands for: the error itself
/// where the payload is one, else the error of unknown cause.
pub fn from_payload(payload: Option<GPUError>) -> (r: GPUError)
    ensures
        r == match payload {
            Some(e) => e,
            None => GPUError::Simple("An unknown GPU error happened!"),
        },
{
    match payload {
        Some(e) => e,
        None => GPUError::Simple("An unknown GPU error happened!"),
    }
}

/// Failure of the proof protocol itself.
pub enum ProofError {
    /// Fewer bytes than the header of an aggregate proof.
    Truncated,
    /// The advertised number of aggregated proofs is not `2^k` with
    /// `k <= MAX_ROUNDS`.
    BadProofCount,
    /// The byte length does not match the round count.
    LengthMismatch,
    /// The accelerator failed where no fallback was possible.
    Accelerator(GPUError),
}

impl From<GPUError> for ProofError {
    fn from(e: GPUError) -> (r: ProofError)
        ensures
            r == ProofError::Accelerator(e),
    {
        ProofError::Accelerator(e)
    }
}

impl vstd::std_specs::convert::FromSpecImpl<GPUError> for ProofError {
    open spec fn obeys_from_spec() -> bool {
        true
    }

    open spec fn from_spec(e: GPUError) -> ProofError {
        ProofError::Accelerator(e)
    }
}

/// Where a group computation runs.
#[derive(Clone, Copy, Debug, PartialEq, Eq, Structural)]
pub enum ComputePath {
    Accelerated,
    Cpu,
}

/// What follows an attempt at a group computation.
pub enum Outcome<T> {
    /// The computation produced its value.
    Done(T),
    /// Run the computation again on this path.
    Retry(ComputePath),
    /// The computation failed for good.
    Failed(ProofError),
}

/// Decides what follows an attempt on `path` that gave `result`. A failure
/// of the accelerator on the accelerated path sends the computation to the
/// CPU; any other failure, and any failure on the CPU path, is final.
pub fn next_step<T>(path: ComputePath, result: Result<T, ProofError>) -> (r: Outcome<T>)
    ensures
        result matches Ok(v) ==> r == Outcome::Done(v),
        result matches Err(e) ==> r == if path == ComputePath::Accelerated
            && e is Accelerator {
            Outcome::<T>::Retry(ComputePath::Cpu)
        } else {
            Outcome::<T>::Failed(e)
        },
{
    match result {
        Ok(v) => Outcome::Done(v),
        Err(e) => {
            let from_accelerator = matches!(e, ProofError::Accelerator(_));
            if path == ComputePath::Accelerated && from_accelerator {
                Outcome::Retry(ComputePath::Cpu)
            } else {
                Outcome::Failed(e)
            }
        },
    }
}

} // verus!
