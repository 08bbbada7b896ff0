# aoe2_ml

Machine learning on Age of Empires II match records: cleaning of the raw
tables, discretisation of numeric columns by ChiMerge, an ID3 decision tree with
k-fold cross validation, a logistic regression, and a gravitational clustering
whose clusters are kept in a union-find.

## Layout

- `src/` — the verified library (Verus):
  - `union_find.rs`: disjoint-set forest with union by size and path
    compression, modelled as the map from each element to its representative;
  - `clustering.rs`: the clusters of a union-find with their sizes, largest first;
  - `arbol.rs`: rows, the decision tree, majority class, partition by a column,
    ID3 construction and prediction;
  - `evaluacion.rs`: folds of a cross validation, evaluation of one fold,
    choice of useful columns, reading of a row;
  - `chimerge.rs`: intervals of a column, the ChiMerge steps (plain and with
    size limits), the whole merge, cut points and the range of a value;
  - `limpieza.rs`: column lookups and filters of the cleaning stage, action
    counts of a game, the pairs of player columns;
  - `texto.rs`: integer fields read as text;
  - `azar.rs`: the random choices (shuffles, partner of a particle).
- `app/` — the programs: CSV input and output, floating-point arithmetic
  (entropy, information gain, chi-square, the regression, the particle physics),
  plots, and the loops that print progress.
- `tests/` — tests of the library on concrete values.

Values of `f64` columns reach the library as their bit patterns. The library
compares them as `f64` does: by an order key on which -0.0 and 0.0 are equal, and
with every comparison that involves a NaN false.
