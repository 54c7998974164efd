use aggproof::error::{from_payload, next_step, ComputePath, GPUError, Outcome, ProofError};

#[test]
fn tool_errors_convert() {
    let e = GPUError::from(ec_gpu_gen::EcError::Simple("bad"));
    assert!(matches!(e, GPUError::EcGpu(ec_gpu_gen::EcError::Simple("bad"))));
    let e = ProofError::from(GPUError::GPUTaken);
    assert!(matches!(e, ProofError::Accelerator(GPUError::GPUTaken)));
}

#[test]
fn accelerator_failure_falls_back_to_cpu() {
    let r: Result<u32, ProofError> = Err(ProofError::Accelerator(GPUError::GPUDisabled));
    assert!(matches!(next_step(ComputePath::Accelerated, r), Outcome::Retry(ComputePath::Cpu)));
    let r: Result<u32, ProofError> = Err(ProofError::Accelerator(GPUError::KernelUninitialized));
    assert!(matches!(next_step(ComputePath::Accelerated, r), Outcome::Retry(ComputePath::Cpu)));
}

#[test]
fn cpu_failure_is_final() {
    let r: Result<u32, ProofError> = Err(ProofError::Accelerator(GPUError::GPUTaken));
    assert!(matches!(
        next_step(ComputePath::Cpu, r),
        Outcome::Failed(ProofError::Accelerator(GPUError::GPUTaken))
    ));
    let r: Result<u32, ProofError> = Err(ProofError::LengthMismatch);
    assert!(matches!(
        next_step(ComputePath::Accelerated, r),
        Outcome::Failed(ProofError::LengthMismatch)
    ));
}

#[test]
fn success_is_done() {
    assert!(matches!(next_step(ComputePath::Accelerated, Ok::<u32, ProofError>(7)), Outcome::Done(7)));
    assert!(matches!(next_step(ComputePath::Cpu, Ok::<u32, ProofError>(9)), Outcome::Done(9)));
}

#[test]
fn payload_that_is_an_accelerator_error_is_kept() {
    assert!(matches!(from_payload(Some(GPUError::GPUDisabled)), GPUError::GPUDisabled));
}

#[test]
fn other_payload_is_an_unknown_error() {
    assert!(matches!(
        from_payload(None),
        GPUError::Simple("An unknown GPU error happened!")
    ));
}

#[test]
fn every_accelerator_error_payload_comes_back_unchanged() {
    assert!(matches!(from_payload(Some(GPUError::Simple("x"))), GPUError::Simple("x")));
    assert!(matches!(
        from_payload(Some(GPUError::GpuTools("Device not found!".to_string()))),
        GPUError::GpuTools(m) if m == "Device not found!"
    ));
    assert!(matches!(from_payload(Some(GPUError::GPUTaken)), GPUError::GPUTaken));
    assert!(matches!(
        from_payload(Some(GPUError::KernelUninitialized)),
        GPUError::KernelUninitialized
    ));
    assert!(matches!(
        from_payload(Some(GPUError::EcGpu(ec_gpu_gen::EcError::Simple("e")))),
        GPUError::EcGpu(ec_gpu_gen::EcError::Simple("e"))
    ));
}
