# esp_tools

Finds the meshes, textures and master files that an Elder Scrolls plugin
(`.esp`/`.esm`) references, and packages the plugin with the assets it needs
into a zip.

- `src/` is the library, verified with Verus: the asset graph (`assets`,
  `reach`), what an asset file references (`loading`), the collection of a
  plugin's references (`collect`), which assets go into a package (`package`,
  `export`), the text views of the assets (`tree`, `gui`), and the laws that
  hold across these operations (`laws`).  `dash` holds the trusted contracts of
  the `dashmap` collections that the graph keeps.
- `app/` is the program around it: the command line, reading plugin and mesh
  files, writing the zip, the C interface, JSON, and self-update.
- `tests/` runs the library on concrete graphs.

## Notes on the design

- Paths use `/` as the separator, as `std::path` does on Unix; a `\` is
  part of a name.  Paths are compared by their components, as
  `std::path::Path` compares them: `a/b.nif`, `a//b.nif`, `a/./b.nif` and `a/b.nif/` name one asset,
  while `./a/b.nif` and `a/../b.nif` name others.  The graph's path index is
  keyed by `paths::normalized_path`, the canonical spelling of the
  components; a node keeps the path as it was first given.
- `AssetGraph::assert_valid` may only be called on a graph whose indexed
  nodes have mirrored links; that is a precondition, and
  `laws::law_built_graphs_stay_valid` shows that every graph built by
  `new`, `add_asset` and `remove_asset` meets it.  `links_valid` answers the
  same question for any graph.
- Nodes are changed through the graph (`add_dependency`, `add_asset`); there
  is no method that hands a node to a closure for writing, since Verus does
  not accept a closure whose argument is a mutable reference.  Reading
  through a closure is `AssetRef::map_read`.
- The Windows asset window itself (its controls and their events) is not
  part of this crate.  What it decides is: `gui::control_layout` (where the
  controls stand), `gui::flat_file_names` (the file list),
  `gui::tree_children` (which children the tree lists below an asset, and in
  which order), and `gui::finish_loading_step` (what happens when the scan
  reports back).
- Meshes and plugins are read in `app/scan.rs` with the `tes3` crate; what
  was read is handed to `Asset::children_from_contents`, which decides what
  the file references.
- A collection (`collect::ReferenceCollector`) keeps, as its invariant,
  that every asset of its graph lies below the plugin, that no two assets
  have paths with the same components, and that every asset has been
  handed out to be read or waits to be; so once nothing waits, every asset
  of the finished graph has been read.
- An `AssetRef` is an index, read together with the graph it came from;
  every operation takes that graph alongside it.
