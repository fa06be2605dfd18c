# biquad_rust

Fits parametric EQ filters (peaking, low shelf, high shelf) so that a measured
in-ear frequency response comes close to a target curve.

Layout:

- `src/` — the verified library. It holds every decision of the pipeline that
  depends only on the order of sample values or on indices and flags: peak
  search with plateaus, prominence bases and half-height crossings, protection
  zones around dips, the bookkeeping of slope limiting, the start of the
  right-to-left pass, interpolation segments, validation of filter specs and of
  frequency responses, the optimiser's parameter layout, the initialisation
  order of filters, which filters are initialised at all, where they are
  placed and where a peaking filter's initial gain comes from.  Sample values reach
  it as order keys of their binary64 encodings (`order.rs`).
- `app/` — the floating-point side: filter responses, smoothing, interpolation
  formulas, loss, the SLSQP optimiser (`slsqp` crate) and the public `f64` API
  with its serde types.  It calls the library for every decision above.
- `tests/` — tests of the library.
