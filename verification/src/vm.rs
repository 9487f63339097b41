//! The rules of the bytecode boundary: which imports a guest module may
//! request, and what each host function does when the guest calls it. The
//! interpreter executing the module is an external collaborator; it consults
//! these decisions when instantiating a module and when dispatching a call
//! out of the guest.

use vstd::prelude::*;
use vstd::string::StrSliceExecFns;

verus! {

/// The kind of one value crossing the boundary.
#[derive(PartialEq, Eq, Structural, Debug, Copy, Clone)]
pub enum ValueKind {
    I32,
    I64,
    FloatSingle,
    FloatDouble,
}

/// The type of an imported function: its parameters and its result.
pub struct FuncSignature {
    pub params: Vec<ValueKind>,
    pub ret: Option<ValueKind>,
}

/// The signatures consisting of `n` 32-bit words and no result.
pub open spec fn words_to_unit(sig: FuncSignature, n: int) -> bool {
    &&& sig.ret is None
    &&& sig.params@.len() == n
    &&& forall|i: int| 0 <= i < n ==> (#[trigger] sig.params@[i]) == ValueKind::I32
}

/// Whether `sig` fits the structured-log sink: two words in, nothing out.
pub fn is_log_signature(signature: &FuncSignature) -> (r: bool)
    ensures
        r == words_to_unit(*signature, 2),
{
    check_words_to_unit(signature, 2)
}

/// Whether `sig` fits the abort hook: nothing in, nothing out.
pub fn is_abort_signature(signature: &FuncSignature) -> (r: bool)
    ensures
        r == words_to_unit(*signature, 0),
{
    check_words_to_unit(signature, 0)
}

/// Whether `sig` fits the drawing hook: five words in, nothing out.
pub fn is_draw_signature(signature: &FuncSignature) -> (r: bool)
    ensures
        r == words_to_unit(*signature, 5),
{
    check_words_to_unit(signature, 5)
}

/// Whether `sig` takes exactly `n` 32-bit words and returns nothing.
fn check_words_to_unit(signature: &FuncSignature, n: usize) -> (r: bool)
    ensures
        r == words_to_unit(*signature, n as int),
{
    match signature.ret {
        Some(_) => {
            return false;
        },
        None => (),
    }
    if signature.params.len() != n {
        return false;
    }
    let mut i: usize = 0;
    while i < n
        invariant
            i <= n,
            n == signature.params@.len(),
            signature.ret is None,
            forall|j: int| 0 <= j < i ==> (#[trigger] signature.params@[j]) == ValueKind::I32,
        decreases n - i,
    {
        let word = match signature.params[i] {
            ValueKind::I32 => true,
            _ => false,
        };
        if !word {
            return false;
        }
        i += 1;
    }
    true
}

/// The host functions the guest may import, by dispatch index.
pub open spec fn resolves_to(module: Seq<char>, field: Seq<char>, sig: FuncSignature) -> Option<
    usize,
> {
    if module == "env"@ && field == "log_str"@ && words_to_unit(sig, 2) {
        Some(0usize)
    } else if module == "env"@ && field == "abort"@ && words_to_unit(sig, 0) {
        Some(1usize)
    } else if module == "env"@ && field == "draw_rectangle"@ && words_to_unit(sig, 5) {
        Some(2usize)
    } else {
        None
    }
}

/// Compares two texts character by character.
fn str_eq(a: &str, b: &str) -> (r: bool)
    ensures
        r <==> a@ == b@,
{
    let n = a.unicode_len();
    if n != b.unicode_len() {
        proof {
            assert(a@ != b@);
        }
        return false;
    }
    let mut k: usize = 0;
    while k < n
        invariant
            k <= n,
            n == a@.len() == b@.len(),
            forall|m: int| 0 <= m < k ==> a@[m] == b@[m],
        decreases n - k,
    {
        if a.get_char(k) != b.get_char(k) {
            return false;
        }
        k += 1;
    }
    proof {
        assert(a@ =~= b@);
    }
    true
}

/// Decides an import request: only the three host functions resolve, each
/// under its exact name and signature; everything else fails instantiation.
pub fn resolve_func(module_name: &str, field_name: &str, signature: &FuncSignature) -> (r: Option<
    usize,
>)
    ensures
        r == resolves_to(module_name@, field_name@, *signature),
{
    proof {
        reveal_strlit("env");
        reveal_strlit("log_str");
        reveal_strlit("abort");
        reveal_strlit("draw_rectangle");
    }
    if !str_eq(module_name, "env") {
        return None;
    }
    if str_eq(field_name, "log_str") && is_log_signature(signature) {
        Some(0)
    } else if str_eq(field_name, "abort") && is_abort_signature(signature) {
        Some(1)
    } else if str_eq(field_name, "draw_rectangle") && is_draw_signature(signature) {
        Some(2)
    } else {
        None
    }
}

/// What a call out of the guest makes the host do.
#[derive(PartialEq, Eq, Structural, Debug)]
pub enum HostAction {
    /// Read `len` bytes of UTF-8 at `ptr` in guest memory and log them.
    Log { ptr: u32, len: u32 },
    /// The guest aborted: trap.
    TrapAbort,
    /// The guest tried to render; a server never renders: trap.
    TrapRender,
    /// The guest called an index no import resolves to: trap.
    TrapInvalidFunction,
}

/// Dispatches one host call by the index the resolver assigned: the log
/// sink reads its two word arguments; everything else traps.
pub fn invoke_index(index: usize, arg0: u32, arg1: u32) -> (r: HostAction)
    ensures
        index == 0 ==> r == (HostAction::Log { ptr: arg0, len: arg1 }),
        index == 1 ==> r == HostAction::TrapAbort,
        index == 2 ==> r == HostAction::TrapRender,
        index >= 3 ==> r == HostAction::TrapInvalidFunction,
{
    if index == 0 {
        HostAction::Log { ptr: arg0, len: arg1 }
    } else if index == 1 {
        HostAction::TrapAbort
    } else if index == 2 {
        HostAction::TrapRender
    } else {
        HostAction::TrapInvalidFunction
    }
}

} // verus!
