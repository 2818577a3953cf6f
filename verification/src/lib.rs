//! Data structures and algorithms for sequences, sets, ranges and graphs, each with a
//! contract that Verus proves of it.

pub mod additive;
pub mod binaryindexedtree;
pub mod binarytree;
pub mod dijkstra;
pub mod euler;
pub mod fft;
pub mod kruskal;
pub mod lazysegtree;
pub mod mastertree;
pub mod minmax;
pub mod mo;
pub mod modint;
pub mod order;
pub mod persistentarray;
pub mod persistentsegmenttree;
pub mod persistentunionfind;
pub mod polynomial;
pub mod radixheap;
pub mod rangeset;
pub mod rollinghash;
pub mod scc;
pub mod segmenttree;
pub mod series;
pub mod sparsetable;
pub mod topologicalsort;
pub mod unionfind;
pub mod waveletmatrix;
pub mod util;
pub mod weightedunionfind;
pub mod wordsizetree;
pub mod z;
