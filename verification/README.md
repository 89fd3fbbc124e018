# lau-dg-algebra

Differential graded algebras — the algebraic structure underlying cohomology — with the
integer side verified in Verus.

`src/` is the verified library. It holds everything about a DGA that is a matter of counting
and signs:

| Module | Contents |
|--------|----------|
| `graded` | graded vector spaces as dimension maps: direct sum, tensor product, shift, dual, truncation, Euler characteristic, Koszul sign, and their laws (additivity and multiplicativity of dimension and Euler characteristic, shift composition, tensor commutativity and unit) |
| `bits` | subsets of generators as `u64` masks, bit counts, and the counts of masks by weight |
| `applications` | binomial coefficients, Hodge dimensions, wedge signs and the wedge product's structure constants on subsets, Betti-table compatibility; Poincaré duality and `Σ C(n,k) = 2ⁿ`, `Σ (-1)ᵏ C(n,k) = 0`, graded commutativity of the wedge product |
| `minimal_model` | free graded algebras: monomial counts and bases, Koszul signs of products, structure constants of the free product, first-stage generators from Betti numbers; exterior dimensions are binomial, free Koszul signs equal wedge signs |
| `cohomology` | Betti numbers from the ranks of the differentials, Poincaré duality, triviality, nonzero degrees, comparison of Betti tables; the Euler–Poincaré principle |
| `massey` | degrees of Massey products |
| `derived` | perfect complexes and the reindexing of a Verdier quotient |

`app/` is ordinary Rust around the library: the floating-point linear algebra (linear maps,
chain complexes, DGAs, cohomology representatives, Massey products, A∞-algebras, the derived
category) and the serde derives. It calls the library for every dimension, Betti number, sign
and index it needs.

`tests/` runs the library on concrete values.
