# holo-northbound

State retrieval for providers of YANG-modelled data.

A Get request names a data node. The library finds the list entry that the
node belongs to, walks the schema below it, asks the provider about each list
and container that the filter lets through, and leaves to other tasks what they
answer for. The result is a plan: what is put below the node, which containers
stay, and what is asked of whom. A StreamGet request delivers the entries of a
list one by one in the same way.

- `src/` is the verified library.
  - `text`, `schema`, `filter`, `plan`: the values that requests are made of.
  - `provider`: the traits that providers implement and their dispatch tables.
  - `context`: the question what a path names.
  - `walk`: the walk over the schema.
  - `lookup`: the list entry that a data node belongs to.
  - `get`, `stream`: the two kinds of requests.
  - `laws`: what holds of every request, whatever the providers report.
  - `data`, `compare`: the data that a plan leaves, and how that of two requests
    to a provider in the same state compares.
- `app/` connects the library to libyang data trees and to the channels between
  tasks.
- `tests/` runs the library on a small routing provider.

Paths are resolved by libyang, a library written in C. What calls it has to be
linked with it, so the library asks through the trait `YangContext`, which
`app/` implements with the crate yang4; the library itself is built and tested
without libyang.

Providers may answer the same question differently from one call to the next.
Contracts therefore speak of the answers that came back, and of the plan that
follows from them.
