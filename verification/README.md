# rinha

Fraud scoring for card transactions by nearest-neighbour search. A transaction
becomes a vector of fourteen numbers, an inverted-file index finds its five
nearest labelled neighbours, and the share of frauds among them is its score.

The library in `src/` is verified with Verus. It never computes with floating
point: a single-precision number passes through it as its bit pattern, it decides
by comparing patterns, and the sums and divisions are left to functions that the
caller hands in. The program in `app/` brings those functions, the sockets, the
files and the JSON.

| Modules | |
| --- | --- |
| `float_bits`, `bytes`, `text`, `calendar` | bit patterns, byte strings, text and dates |
| `rank` | lists of nearest items |
| `index`, `build_index`, `quantized` | laying out and writing index files |
| `data`, `knn`, `centroid_dists` | the server's index and its search |
| `vector`, `search`, `reload` | the search engine's index and its search |
| `kmeans`, `seeding`, `engine_clusters`, `repeatable` | clustering |
| `json`, `json_utils`, `normalize`, `query`, `dataset` | transactions, references and their numbers |
| `http`, `responses`, `balancer` | connections, answers and upstreams |
| `evaluation` | tallies and synthetic queries |
| `gz` | the gzip codec |

Outside code is trusted in two places: `gz` calls flate2, and `http` calls memchr
to find a byte string in another. What is claimed of them stands above the
functions that call them.
