//! The guard that keeps an interposed call from re-entering the warp logic
//! when the C library calls back into another interposed function.
use vstd::prelude::*;

verus! {

/// Runs `f` with the guard raised, or `fallback` when the guard is already
/// up. `f` is handed the raised guard, so that every call nested inside it
/// sees the guard up and takes its own fallback; afterwards the guard is
/// down again exactly when it was down before.
pub fn with_hook_guard<T, F: FnOnce() -> T, G: FnOnce(bool) -> T>(
    in_hook: &mut bool,
    fallback: F,
    f: G,
) -> (r: T)
    requires
        *old(in_hook) ==> fallback.requires(()),
        !*old(in_hook) ==> f.requires((true,)),
    ensures
        *old(in_hook) ==> fallback.ensures((), r),
        !*old(in_hook) ==> f.ensures((true,), r),
        *final(in_hook) == *old(in_hook),
{
    if *in_hook {
        return fallback();
    }
    *in_hook = true;
    let out = f(*in_hook);
    *in_hook = false;
    out
}

/// Nested guards: when the body of an outer call makes an inner call with
/// the guard it was handed, the inner call takes its fallback and never
/// runs its own body, so a hook never recurses into its own warping code.
/// With the guard down, `outer_fallback` and `inner_body` are never called
/// and the result is `inner_fallback`'s.
pub fn with_nested_hook_guard<T, F1: FnOnce() -> T, F2: FnOnce() -> T, G: FnOnce(bool) -> T>(
    in_hook: &mut bool,
    outer_fallback: F1,
    inner_fallback: F2,
    inner_body: G,
) -> (r: T)
    requires
        !*old(in_hook),
        inner_fallback.requires(()),
    ensures
        inner_fallback.ensures((), r),
        !*final(in_hook),
{
    let outer_body = move |raised: bool| -> (v: T)
        requires
            raised,
            inner_fallback.requires(()),
        ensures
            inner_fallback.ensures((), v),
        {
            let mut inner = raised;
            with_hook_guard(&mut inner, inner_fallback, inner_body)
        };
    with_hook_guard(in_hook, outer_fallback, outer_body)
}

} // verus!
