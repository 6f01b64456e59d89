use vstd::prelude::*;

verus! {

/// What tracing one ray into the scene gives: nothing hit, a hit that absorbs
/// the ray (with the light the surface emits), or a hit that scatters it
/// (with the attenuation plus emission, and the outgoing ray).
pub enum TraceResult<C, R> {
    Missed,
    Absorbed(C),
    Scattered((C, R)),
}

/// `m` gives, for each ray, the one result the scene trace `f` gives.
pub open spec fn trace_model<C, R, T: Fn(&R) -> TraceResult<C, R>>(
    f: T,
    m: spec_fn(R) -> TraceResult<C, R>,
) -> bool {
    forall|r: R, out: TraceResult<C, R>| #[trigger] call_ensures(f, (&r,), out) ==> out == m(r)
}

/// `m` gives the one result the colour operation `f` gives.
pub open spec fn op_model<C, M: Fn(C, C) -> C>(f: M, m: spec_fn(C, C) -> C) -> bool {
    forall|a: C, b: C, out: C| #[trigger] call_ensures(f, (a, b), out) ==> out == m(a, b)
}

/// The colour seen along `r` with `depth` bounces left: black once the
/// bounces run out; the background where the ray escapes; the emitted light
/// where it is absorbed; and where it scatters, the attenuation times the
/// colour seen along the scattered ray with one bounce fewer.
pub open spec fn model_color<C, R>(
    r: R,
    background: C,
    black: C,
    depth: int,
    tm: spec_fn(R) -> TraceResult<C, R>,
    mm: spec_fn(C, C) -> C,
) -> C
    decreases depth,
{
    if depth <= 0 {
        black
    } else {
        match tm(r) {
            TraceResult::Missed => background,
            TraceResult::Absorbed(e) => e,
            TraceResult::Scattered((a, next)) => mm(
                a,
                model_color(next, background, black, depth - 1, tm, mm),
            ),
        }
    }
}

/// `c` is a colour that following `r` with `depth` bounces left may give,
/// whatever `trace` and `product` return on each call: black once the bounces
/// run out; otherwise, for some result `trace` can give for `r`, the
/// background where it missed, the emitted light where it was absorbed, and
/// where it scattered, a product `product` can give of the attenuation and a
/// colour that the scattered ray may give with one bounce fewer.
pub open spec fn may_see<C, R, T: Fn(&R) -> TraceResult<C, R>, M: Fn(C, C) -> C>(
    trace: T,
    product: M,
    r: R,
    background: C,
    black: C,
    depth: int,
    c: C,
) -> bool
    decreases depth,
{
    if depth <= 0 {
        c == black
    } else {
        exists|o: TraceResult<C, R>|
            #[trigger] call_ensures(trace, (&r,), o) && match o {
                TraceResult::Missed => c == background,
                TraceResult::Absorbed(e) => c == e,
                TraceResult::Scattered((a, next)) => exists|seen: C|
                    #[trigger] call_ensures(product, (a, seen), c) && may_see(
                        trace,
                        product,
                        next,
                        background,
                        black,
                        depth - 1,
                        seen,
                    ),
            }
    }
}

/// Follows a light path through the scene: `trace` hit-tests a ray and lets
/// the surface's material scatter it; `product` multiplies two colours
/// channel by channel. The recursion ends after at most `depth` bounces.
pub fn ray_color<C: Copy, R, T: Fn(&R) -> TraceResult<C, R>, M: Fn(C, C) -> C>(
    r: &R,
    background: C,
    black: C,
    depth: i32,
    trace: &T,
    product: &M,
) -> (c: C)
    requires
        forall|x: &R| call_requires(*trace, (x,)),
        forall|a: C, b: C| call_requires(*product, (a, b)),
    ensures
        depth <= 0 ==> c == black,
        may_see(*trace, *product, *r, background, black, depth as int, c),
        forall|tm: spec_fn(R) -> TraceResult<C, R>, mm: spec_fn(C, C) -> C|
            #[trigger] trace_model(*trace, tm) && #[trigger] op_model(*product, mm) ==> c
                == model_color(*r, background, black, depth as int, tm, mm),
    decreases depth,
{
    if depth <= 0 {
        return black;
    }
    match trace(r) {
        TraceResult::Missed => background,
        TraceResult::Absorbed(emitted) => emitted,
        TraceResult::Scattered((attenuation, scattered)) => {
            let seen = ray_color(&scattered, background, black, depth - 1, trace, product);
            product(attenuation, seen)
        },
    }
}

/// What tracing `r` gives when `hm` is the scene's hit test, `sm` the
/// hit surface's scatter, `em` its emitted light and `pm` colour addition:
/// missed where nothing is hit; absorbed, with the emitted light, where the
/// surface does not scatter; otherwise scattered, with the emitted light plus
/// the attenuation, and the scattered ray.
pub open spec fn model_trace<C, R, H>(
    r: R,
    hm: spec_fn(R) -> Option<H>,
    sm: spec_fn(R, H) -> Option<(C, R)>,
    em: spec_fn(H) -> C,
    pm: spec_fn(C, C) -> C,
) -> TraceResult<C, R> {
    match hm(r) {
        None => TraceResult::Missed,
        Some(h) => match sm(r, h) {
            Some((a, next)) => TraceResult::Scattered((pm(em(h), a), next)),
            None => TraceResult::Absorbed(em(h)),
        },
    }
}

pub open spec fn hit_model<R, H, FH: Fn(&R) -> Option<H>>(f: FH, m: spec_fn(R) -> Option<H>) -> bool {
    forall|r: R, out: Option<H>| #[trigger] call_ensures(f, (&r,), out) ==> out == m(r)
}

pub open spec fn scatter_model<C, R, H, FS: Fn(&R, &H) -> Option<(C, R)>>(
    f: FS,
    m: spec_fn(R, H) -> Option<(C, R)>,
) -> bool {
    forall|r: R, h: H, out: Option<(C, R)>| #[trigger] call_ensures(f, (&r, &h), out) ==> out == m(r, h)
}

pub open spec fn emit_model<C, H, FE: Fn(&H) -> C>(f: FE, m: spec_fn(H) -> C) -> bool {
    forall|h: H, out: C| #[trigger] call_ensures(f, (&h,), out) ==> out == m(h)
}

/// `out` is a result that tracing `r` may give, whatever the closures return
/// on each call: for some hit `hit` can report, missed where there is none;
/// otherwise, for some scatter result for that hit, absorbed with a light the
/// surface can emit where it does not scatter, and scattered with a sum of an
/// emitted light and the attenuation, and the scattered ray, where it does.
pub open spec fn may_trace<
    C,
    R,
    H,
    FH: Fn(&R) -> Option<H>,
    FS: Fn(&R, &H) -> Option<(C, R)>,
    FE: Fn(&H) -> C,
    FP: Fn(C, C) -> C,
>(r: R, hit: FH, scatter: FS, emitted: FE, plus: FP, out: TraceResult<C, R>) -> bool {
    exists|h: Option<H>|
        #[trigger] call_ensures(hit, (&r,), h) && match h {
            None => out is Missed,
            Some(hh) => exists|s: Option<(C, R)>|
                #[trigger] call_ensures(scatter, (&r, &hh), s) && match s {
                    Some((a, next)) => exists|e: C, sum: C|
                        #[trigger] call_ensures(emitted, (&hh,), e) && #[trigger] call_ensures(
                            plus,
                            (e, a),
                            sum,
                        ) && out == TraceResult::Scattered((sum, next)),
                    None => exists|e: C|
                        #[trigger] call_ensures(emitted, (&hh,), e) && out == TraceResult::<
                            C,
                            R,
                        >::Absorbed(e),
                },
        }
}

/// Traces one ray: `hit` finds the nearest hit, `scatter` lets the hit
/// surface scatter the ray, `emitted` gives the light the surface emits, and
/// `plus` adds two colours.
pub fn trace<
    C,
    R,
    H,
    FH: Fn(&R) -> Option<H>,
    FS: Fn(&R, &H) -> Option<(C, R)>,
    FE: Fn(&H) -> C,
    FP: Fn(C, C) -> C,
>(r: &R, hit: &FH, scatter: &FS, emitted: &FE, plus: &FP) -> (out: TraceResult<C, R>)
    requires
        call_requires(*hit, (r,)),
        forall|h: &H| call_requires(*scatter, (r, h)),
        forall|h: &H| call_requires(*emitted, (h,)),
        forall|a: C, b: C| call_requires(*plus, (a, b)),
    ensures
        may_trace(*r, *hit, *scatter, *emitted, *plus, out),
        forall|
            hm: spec_fn(R) -> Option<H>,
            sm: spec_fn(R, H) -> Option<(C, R)>,
            em: spec_fn(H) -> C,
            pm: spec_fn(C, C) -> C,
        |
            #[trigger] hit_model(*hit, hm) && #[trigger] scatter_model(*scatter, sm)
                && #[trigger] emit_model(*emitted, em) && #[trigger] op_model(*plus, pm) ==> out
                == model_trace(*r, hm, sm, em, pm),
{
    match hit(r) {
        None => TraceResult::Missed,
        Some(h) => match scatter(r, &h) {
            Some((attenuation, scattered)) => {
                let e = emitted(&h);
                TraceResult::Scattered((plus(e, attenuation), scattered))
            },
            None => TraceResult::Absorbed(emitted(&h)),
        },
    }
}

} // verus!
