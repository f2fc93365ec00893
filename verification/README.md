# hybrid-fusion

A verified orchestrator for a hybrid of a transformer and a spiking network.
Both are supplied by the host, as implementations of `Transformer` and
`SpikingNetwork`.

```text
tokens -> hidden states -> pooled, resized, squashed -> stimuli -> fired neurons
spike activity -> features, resized, squashed -> embedding -> expert route
```

- `HybridNetwork` runs the first line. A request or a hidden state that breaks
  a contract is refused before the spiking network is stepped, and no failure
  counts as a step.
- `ReverseHybridPath` runs the second line over any `ExpertRouter`. What the
  router returns is checked before it is used: sizes, weights, their sum, and
  the selection.
- `routing` holds the arithmetic of mixture-of-experts routing, and `backends`
  two routers built on it.

## Numbers

Floating-point numbers are held as bit patterns (`Scalar`, `Wide`). Order,
finiteness, clamping and selection are decided on the pattern and verified.
Rounded operations come from the host, through the `Arithmetic` trait, of which
nothing is assumed: contracts say which operation is applied to which operands.
Laws that need more of a host, such as that it is deterministic or that its
hyperbolic tangent is bounded, say so.

## Layout

| Path | Holds |
|------|-------|
| `src/scalar.rs`, `src/arithmetic.rs` | numbers and the operations asked of the host |
| `src/tensor.rs`, `src/types.rs`, `src/traits.rs`, `src/error.rs`, `src/text.rs` | data, backend contracts, errors and their texts |
| `src/validate.rs`, `src/projector.rs`, `src/hybrid.rs` | the forward path |
| `src/routing.rs`, `src/reverse.rs`, `src/backends/` | the reverse path |
| `tests/` | tests on machine floating point |
| `app/` | machine floating point, wire formats, error traits, error reporting |

Proof functions whose names begin with `law_` state what holds across
functions.
