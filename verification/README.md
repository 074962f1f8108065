# reactdb

A copy-on-write B-epsilon tree key-value store, verified with Verus.

Inserts are buffered in a memstore; every third pending key the memstore is
merged into the tree, the new nodes are written past the free-space offset,
and an uberblock of the next transaction group is written into one of three
copies at the start of the device.

- `src/` is the verified library: the on-disk formats (`serializable`,
  `non_volatile::object`), the block device image (`non_volatile::block_device`),
  the object manager and its cache (`nv_obj_mngr`, `nv_obj_cache`), the space
  managers of the first layout (`space_manager`, `cached_space_manager`), the
  merge and its specification (`algorithm::b_epsilon_tree`), and the store
  (`context`).
- `tests/` runs the library on concrete values.
- `app/` is the program: it keeps the device in the file `bd.raw`, inserts
  keys, and writes every commit back to the file.

The main properties proved: a commit leaves the tree holding the old entries
merged with the pending ones, and leaves the old tree as it was; opening the
device that a commit left gives back the committed tree
(`context::lemma_reload`); what the object manager stores, it reads back
(`nv_obj_mngr::lemma_get_after_store`); every serialized object and
uberblock reads back as itself.
