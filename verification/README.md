# kdtree

A KD-tree over points with any number of axes: build once, then ask for the
nearest points, for all points within a radius, or for all pairs of points
within a radius of each other.

The library under `src/` is written in Verus. Every function carries a contract
and is proved to meet it; `rayon` and three functions of the standard library
are called through small wrappers whose contracts are stated and believed.

## Layout

| module | what it holds |
| --- | --- |
| `scalar` | the numbers that points are made of, and what holds of them |
| `exact` | integers as scalars: arithmetic that does not round |
| `metric`, `distance` | the algebra of distances; distances between points and boxes |
| `lanes` | distances in the order in which a query adds them up |
| `layout`, `kernel` | blocks of rows, bounding boxes and the loops over them |
| `node`, `tree` | the flat tree and its invariant |
| `perm`, `partition`, `builder`, `arrange` | building a tree, and the order it leaves |
| `best`, `search`, `scan`, `query`, `planes` | nearest points |
| `radius`, `pairs` | points within a radius |
| `points`, `error`, `text` | what callers hand in and are told |

`app/` is the Python module around the library: it implements the scalars for
64-bit floats and converts NumPy arrays. `tests/` runs the library on floats and
on integers.

## What is proved

A tree keeps its shape: every subtree owns one run of rows, split at the middle
along the widest axis of its tight box. The points, nodes and boxes that a build
leaves depend on the points and the leaf size only, so builds on one thread and on
many agree, value for value.

What a query reports is a function of the tree and the question, on one thread or
on many: real points with their distances, nearest first, ties in the order of the
row numbers. A point that ought to be in the answer can be missing only where a
lower bound of the descent exceeds its distance. By the metric of the greatest
axis, and in arithmetic that does not round, none does, and the answer is the
nearest points exactly; with `eps` above zero, up to that factor. Fewer points are
then a prefix of more, and an approximate answer keeps pace with the exact one,
place by place. A query without a limit on the distance is full, in arithmetic that
rounds too: it reports as many points as are asked for, or all, unless a bound of the
descent overflows to a nan.

A radius query and a query for pairs report exactly the points and the pairs
within the radius, rounding or not, by every metric whose reduced distances keep
the order of plain ones. The two agree row by row, and a larger radius loses
nothing.
