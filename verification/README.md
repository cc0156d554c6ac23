# pkdtree

A batch-parallel kd-tree (PKD tree) over points with `K` integer coordinates,
written in Verus. Trees are built and extended in batches: the top levels of a
tree are laid out as a *skeleton* built from a sample, points are routed to
the skeleton's buckets by a counting sieve, and each bucket is built on its
own, in parallel. Batched k-nearest-neighbour queries return, for every query
point, the nearest points with their squared distances.

Layout:

- `src/point.rs`, `src/bbox.rs`: points, squared distances, bounding boxes.
- `src/utils.rs`: selection of the k-th smallest coordinate (in place and on
  a copy), sample pivots, splitting a vector into pieces.
- `src/sieve.rs`: counting sort by bucket and bucket sieving of a vector.
- `src/pkd_tree/`: the tree, its skeleton, construction, batch insertion and
  nearest-neighbour search.
- `src/batch_par_kd_tree_trait.rs`: the interface shared by the trees, and
  laws relating construction, insertion and queries.
- `src/lib_kd_tree.rs`: the same interface over the `kd_tree` crate.
- `src/parallel.rs`, `src/prefix.rs`, `src/radix.rs`, `src/rng.rs`,
  `src/std_order.rs`: the calls into rayon, rayon-scan, rdst, rand and the
  standard library's selection and sorting, each with the contract it is
  trusted to meet.
- `app/main.rs`: the benchmark driver (file input, random point sets,
  floating-point coordinates rounded onto an integer grid, timing).
