# optimal_transport_rs

Optimal transport for discrete distributions: Sinkhorn transport plans,
Wasserstein-1 and Wasserstein-2 distances, free-support barycenters and JKO
gradient flows.

## Layout

- `src/` is the verified library (Verus). It holds everything in these
  algorithms that is not floating-point arithmetic, each with a contract:
  - `ordering`: an order-preserving integer key for IEEE-754 bit patterns, a
    stable argsort (the unique stable order, proved) and a first-minimum search;
    the front of the stable order is the first minimum.
  - `iteration`: the convergence loop with a step budget (Sinkhorn scaling,
    barycenter support updates), with the law that convergence is final, and
    the fixed-length unrolling of a gradient flow.
  - `layout`: input shape checks, the choice between the one-dimensional and
    the general method, the initial barycenter support indices, and pairwise
    tables (cost matrices).
  - `scan`: the quantile cursor and the first index reaching a quantile level.
- `app/` holds the floating-point numerics (`Distribution`, `sinkhorn`,
  `wasserstein_*`, `barycenter*`, `jko_*`), which the verified library cannot
  hold; every ordering, index choice, table shape and loop schedule they use is
  a call into `src/`.
- `tests/` exercises the verified library on concrete inputs.
