use ortex::error::BridgeError;
use ortex::provider::{is_cuda_available, register_cuda, Optimization, Provider};

#[test]
fn availability_passes_the_engine_answer_on() {
    assert_eq!(is_cuda_available(Ok(true)), Ok(true));
    assert_eq!(is_cuda_available(Ok(false)), Ok(false));
}

#[test]
fn availability_keeps_the_engine_complaint() {
    let r = is_cuda_available(Err(String::from("provider list unavailable")));
    assert_eq!(
        r,
        Err(BridgeError::LoadFailure(String::from("provider list unavailable")))
    );
    assert_eq!(r.err().unwrap().message(), "provider list unavailable");
}

#[test]
fn registration_confirms_with_a_fixed_text() {
    assert_eq!(register_cuda(Ok(())), Ok(String::from("CUDA registered...")));
}

#[test]
fn registration_keeps_the_engine_complaint() {
    assert_eq!(
        register_cuda(Err(String::from("no CUDA device"))),
        Err(BridgeError::LoadFailure(String::from("no CUDA device")))
    );
}

#[test]
fn provider_names_are_read() {
    assert_eq!(Provider::from_name("cpu"), Some(Provider::Cpu));
    assert_eq!(Provider::from_name("cuda"), Some(Provider::Cuda));
    assert_eq!(Provider::from_name("CUDA"), None);
    assert_eq!(Provider::from_name(""), None);
    assert_eq!(Provider::from_name("tpu"), None);
}

#[test]
fn optimization_levels_are_read() {
    assert_eq!(Optimization::from_level(1), Optimization::Level1);
    assert_eq!(Optimization::from_level(2), Optimization::Level2);
    assert_eq!(Optimization::from_level(3), Optimization::Level3);
    assert_eq!(Optimization::from_level(0), Optimization::Disable);
    assert_eq!(Optimization::from_level(4), Optimization::Disable);
    assert_eq!(Optimization::from_level(-1), Optimization::Disable);
}
