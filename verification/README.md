# froql

An entity–component store with first class relations between entities, and
the code generator behind its queries, written in Verus.

Everything under `src/` is verified, with one trusted boundary: `src/bitset.rs`
declares the sparse bitset type of `hi_sparse_bitset` and wraps the few calls made
into it (new, insert, contains, iteration, and the intersection, union and
difference of sets). Verus believes the contracts of those wrappers without proof;
each states what the crate's source shows. The rest is proved:

- `entity_store`, `archetype`, `bookkeeping`, `component`, `layout_vec`,
  `bitset`: entities in a generational arena, their components in archetype
  tables, and the sets of archetypes that hold a component.
- `relation_vec`, `relations`, `consistency`, `destroy`: relations as lists of
  partner ids on both sides, kept mirrored; destroying an entity removes it
  from every partner and follows cascading relations.
- `query_helper`: the helpers that generated query code calls at run time.
- `query_parser`, `query_terms`, `join_order`, `generator`,
  `generator_nodes`, `archetype_start`, `invar_start`, `relation_join`,
  `query_closure`, `invar_captures`, `codegen`, `text`: from the tokens of a
  query to the text of the code that runs it.

`app/` holds the typed world around the verified bookkeeping (components as
Rust types, the singleton entity, entity views, deferred operations), which
Verus does not check. `tests/` holds
the tests.
