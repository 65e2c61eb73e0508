//! The tensor library's types, the device the program runs on, and the few
//! tensor calls the data pipeline makes.
use candle_core::{Device, Tensor};
use vstd::prelude::*;

verus! {

/// A tensor of the tensor library.
#[verifier::external_type_specification]
#[verifier::external_body]
pub struct ExTensor(Tensor);

/// A compute device (CPU or an accelerator) of the tensor library.
#[verifier::external_type_specification]
#[verifier::external_body]
pub struct ExDevice(Device);

/// An error of the tensor library.
#[verifier::external_type_specification]
#[verifier::external_body]
pub struct ExCandleError(candle_core::Error);

// A tensor handle shares its storage, which the tensor library can overwrite
// through `&self` (in-place operations, `slice_set`, `Var::set`). The names
// below therefore speak only of what is fixed when a tensor is made: its
// dimensions, its element type and device, and the values its storage was
// created with. Nothing here states what a later read of a tensor returns.

/// The dimensions of a tensor, outermost first (what `Tensor::dims` returns;
/// a tensor's layout never changes).
pub uninterp spec fn tensor_dims(t: Tensor) -> Seq<usize>;

/// The `u32` values that the tensor's storage was created with, in the
/// row-major order of the tensor's layout.
pub uninterp spec fn created_u32_values(t: Tensor) -> Seq<u32>;

/// The tensor's element type is `u32` and it lives on the CPU device (both
/// are fixed when the tensor is made).
pub uninterp spec fn holds_cpu_u32(t: Tensor) -> bool;

/// The device is `Device::Cpu` (what `Device::is_cpu` returns).
pub uninterp spec fn device_is_cpu(d: Device) -> bool;

/// `Device::Cpu`, the main-memory device.
#[verifier::external_body]
fn cpu_device() -> (d: Device)
    ensures
        device_is_cpu(d),
{
    Device::Cpu
}

/// The device the program computes on: the CPU.
pub fn default_device() -> (d: Device)
    ensures
        device_is_cpu(d),
{
    cpu_device()
}

/// `Tensor::from_vec(data, (rows, cols), device)`.
///
/// The call fails with a shape mismatch when `data` does not hold `rows * cols`
/// values. Otherwise the CPU device always accepts the data; another device may
/// refuse it (in a build without accelerator support every other device does).
/// On success the tensor has the dimensions `[rows, cols]` and is created
/// holding `data` in row-major order, and on the CPU it is a CPU tensor of `u32`.
#[verifier::external_body]
pub(crate) fn u32_matrix(data: Vec<u32>, rows: usize, cols: usize, device: &Device) -> (r: Result<Tensor, candle_core::Error>)
    requires
        rows * cols <= usize::MAX,
    ensures
        data.len() != rows * cols ==> r is Err,
        data.len() == rows * cols && device_is_cpu(*device) ==> r is Ok,
        r matches Ok(t) ==> {
            &&& tensor_dims(t) == seq![rows, cols]
            &&& created_u32_values(t) == data@
            &&& device_is_cpu(*device) ==> holds_cpu_u32(t)
        },
{
    Tensor::from_vec(data, (rows, cols), device)
}

/// `Tensor::squeeze(0)`: drops the leading dimension when it has size 1 and
/// otherwise returns the tensor unchanged; the element type and device stay
/// the same. It fails on a tensor without dimensions.
#[verifier::external_body]
pub(crate) fn squeeze_leading(t: &Tensor) -> (r: Result<Tensor, candle_core::Error>)
    ensures
        tensor_dims(*t).len() == 0 <==> r is Err,
        r matches Ok(s) ==> {
            &&& holds_cpu_u32(s) == holds_cpu_u32(*t)
            &&& tensor_dims(*t)[0] == 1 ==> tensor_dims(s) == tensor_dims(*t).drop_first()
            &&& tensor_dims(*t)[0] != 1 ==> tensor_dims(s) == tensor_dims(*t)
        },
{
    t.squeeze(0)
}

/// `Tensor::to_vec1::<u32>()`: the current elements of a one-dimensional tensor,
/// one per position. It fails when the tensor does not have exactly one
/// dimension (or does not hold `u32`); a one-dimensional CPU tensor of `u32`
/// is always read. Which values are read is not stated.
#[verifier::external_body]
pub(crate) fn u32_elements(t: &Tensor) -> (r: Result<Vec<u32>, candle_core::Error>)
    ensures
        tensor_dims(*t).len() != 1 ==> r is Err,
        tensor_dims(*t).len() == 1 && holds_cpu_u32(*t) ==> r is Ok,
        r matches Ok(v) ==> v.len() == tensor_dims(*t)[0],
{
    t.to_vec1::<u32>()
}

/// The displayed text of a tensor-library error (`format!("{}", e)`); nothing
/// is stated of it.
#[verifier::external_body]
pub(crate) fn candle_error_text(e: &candle_core::Error) -> String {
    format!("{}", e)
}

} // verus!
