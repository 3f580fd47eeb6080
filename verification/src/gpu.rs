//! Whether a GPU backend is available: it is not, and the batch functions run on
//! the CPU.
use vstd::prelude::*;
use crate::text::{chars_of, push_all, replace_chars, replace_seq, string_of};

verus! {

/// The state of the GPU backend.
#[derive(Debug)]
pub enum GpuState {
    Unavailable(String),
}

/// Why there is no GPU backend.
pub const GPU_REASON: &'static str = "gpu feature removed in 1.0.0 — batch uses rayon on CPU";

/// The state of the GPU backend: unavailable, for `GPU_REASON`.
pub fn gpu_state() -> (r: GpuState)
    ensures
        r matches GpuState::Unavailable(reason) && reason@ == GPU_REASON@,
{
    GpuState::Unavailable(GPU_REASON.to_owned())
}

/// There is no GPU backend.
pub fn is_available() -> (b: bool)
    ensures
        !b,
{
    false
}

/// The JSON object `{"available": false, "reason": "..."}` for the reason of the
/// state, with double quotes made single and backslashes made slashes.
pub open spec fn gpu_info_text(reason: Seq<char>) -> Seq<char> {
    let esc = replace_seq(replace_seq(reason, "\""@, "'"@), "\\"@, "/"@);
    "{\"available\": false, \"reason\": \""@ + esc + "\"}"@
}

/// A JSON description of the GPU backend's state.
pub fn gpu_info() -> (r: String)
    ensures
        r@ == gpu_info_text(GPU_REASON@),
{
    match gpu_state() {
        GpuState::Unavailable(reason) => {
            let v = chars_of(reason.as_str());
            let a = replace_chars(&v, &chars_of("\""), &chars_of("'"));
            let esc = replace_chars(&a, &chars_of("\\"), &chars_of("/"));
            let mut out = chars_of("{\"available\": false, \"reason\": \"");
            push_all(&mut out, &esc);
            let tail = chars_of("\"}");
            push_all(&mut out, &tail);
            string_of(out.as_slice())
        },
    }
}

} // verus!
