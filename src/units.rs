use vstd::prelude::*;

verus! {

/// A byte size read from text such as `"10MB"` or `"4KiB"`: the number of bytes
/// and the text it was read from.
#[derive(Debug, Clone)]
pub struct ByteConfig {
    pub parsed: usize,
    pub raw: String,
}

/// A duration read from text such as `"30s"` or `"1h 30m"`, and the text it was
/// read from.
#[derive(Debug)]
pub struct TimeConfig {
    pub parsed: std::time::Duration,
    pub raw: String,
}

} // verus!
