use cuda_device::target::{float_redux, FloatRedux};

#[test]
fn redux_support_per_generation() {
    assert_eq!(float_redux(7), FloatRedux::NeedsBlackwell);
    assert_eq!(float_redux(9), FloatRedux::NeedsBlackwell);
    assert_eq!(float_redux(10), FloatRedux::Available);
    assert_eq!(float_redux(11), FloatRedux::OtherGeneration);
    assert_eq!(float_redux(12), FloatRedux::ConsumerBlackwell);
    assert_eq!(float_redux(13), FloatRedux::OtherGeneration);
}
