# lau_ergodic_theory

Ergodic theory on finite state spaces, in two layers.

* `src/` is the verified library. It holds the exact, combinatorial part of
  the subject, each function with a contract proved by Verus:
  transformations and their preimages, images, iterates and orbits
  (`measure`); partitions, common refinements, pull-backs and the refinements
  behind Kolmogorov-Sinai entropy (`entropy`); invariant sets and the orbit
  decomposition (`ergodicity`); correlation sets T⁻ⁿ(A) ∩ B (`mixing`);
  cylinder sets along an orbit (`shannon_mcmillan`); and the support graph of
  a Markov chain with its irreducibility and aperiodicity tests (`markov`).
  Public proof functions named `law_*` state and prove the properties that tie
  these operations together.
* `app/` holds the real-valued layer: probability measures, Birkhoff
  averages, entropies, mixing tests, Lyapunov exponents, the Perron-Frobenius
  operator (with nalgebra) and agent behaviour reports, plus serializable
  (serde) twins of the library's types. It calls the library for every set it
  needs and does the floating-point arithmetic itself.
* `tests/` exercises the library on concrete inputs.
