//! Opening the store: configuration, the holder that owns the seven graph
//! trees plus the metadata tree, and the datastore handle.

use vstd::prelude::*;
use crate::errors::{map_err, DSError};
use crate::kv::{sled_open_all, tree_view};
use crate::transaction::SledTransaction;

verus! {

/// Options for opening a sled-backed store.
#[derive(Clone, Copy, Debug)]
pub struct SledConfig {
    pub use_compression: bool,
    pub compression_factor: Option<i32>,
}

impl Default for SledConfig {
    fn default() -> (r: SledConfig)
        ensures
            !r.use_compression && r.compression_factor is None,
    {
        SledConfig { use_compression: false, compression_factor: None }
    }
}

impl SledConfig {
    /// A config with zstd compression enabled.
    ///
    /// `factor` is the zstd compression factor; unspecified leaves the
    /// store's default (5).
    pub fn with_compression(factor: Option<i32>) -> (r: SledConfig)
        ensures
            r.use_compression && r.compression_factor == factor,
    {
        SledConfig { use_compression: true, compression_factor: factor }
    }

    /// Opens a datastore at `path` with these options.
    pub fn open(self, path: &str) -> (r: Result<SledDatastore, DSError>)
    {
        Ok(SledDatastore { holder: SledHolder::new(path, self)? })
    }
}

/// The holder of the whole store: the default keyspace (vertices), the
/// seven named graph trees, and the metadata tree.
pub struct SledHolder {
    pub db: sled::Db,
    pub vertices: sled::Tree,
    pub edges: sled::Tree,
    pub edge_ranges: sled::Tree,
    pub reversed_edge_ranges: sled::Tree,
    pub vertex_properties: sled::Tree,
    pub vertex_property_values: sled::Tree,
    pub edge_properties: sled::Tree,
    pub edge_property_values: sled::Tree,
    pub metadata: sled::Tree,
}

impl SledHolder {
    /// All nine keyspaces hold nothing.
    pub open spec fn all_empty(&self) -> bool {
        &&& tree_view(self.vertices) == Map::<Seq<u8>, Seq<u8>>::empty()
        &&& tree_view(self.edges) == Map::<Seq<u8>, Seq<u8>>::empty()
        &&& tree_view(self.edge_ranges) == Map::<Seq<u8>, Seq<u8>>::empty()
        &&& tree_view(self.reversed_edge_ranges) == Map::<Seq<u8>, Seq<u8>>::empty()
        &&& tree_view(self.vertex_properties) == Map::<Seq<u8>, Seq<u8>>::empty()
        &&& tree_view(self.vertex_property_values) == Map::<Seq<u8>, Seq<u8>>::empty()
        &&& tree_view(self.edge_properties) == Map::<Seq<u8>, Seq<u8>>::empty()
        &&& tree_view(self.edge_property_values) == Map::<Seq<u8>, Seq<u8>>::empty()
        &&& tree_view(self.metadata) == Map::<Seq<u8>, Seq<u8>>::empty()
    }

    /// Opens all trees of the store at `path`.
    pub fn new(path: &str, opts: SledConfig) -> (r: Result<SledHolder, DSError>)
    {
        Self::open_impl(path, false, opts)
    }

    /// Opens a fresh, empty, process-lifetime store; it satisfies the
    /// whole-store invariant from the start.
    pub fn new_temporary() -> (r: Result<SledHolder, DSError>)
        ensures
            r matches Ok(h) ==> h.all_empty() && crate::invariants::holder_wf(h),
    {
        let r = Self::open_impl(
            "",
            true,
            SledConfig { use_compression: false, compression_factor: None },
        );
        proof {
            if r is Ok {
                crate::invariants::lemma_empty_store_wf(r->Ok_0);
            }
        }
        r
    }

    fn open_impl(path: &str, temporary: bool, opts: SledConfig) -> (r: Result<SledHolder, DSError>)
        ensures
            temporary && r is Ok ==> (r matches Ok(h) && h.all_empty()),
    {
        let mut names: Vec<&str> = Vec::new();
        names.push("edges");
        names.push("edge_ranges");
        names.push("reversed_edge_ranges");
        names.push("vertex_properties");
        names.push("vertex_property_values");
        names.push("edge_properties");
        names.push("edge_property_values");
        names.push("metadata");
        let (db, mut trees) = map_err(sled_open_all(
            path,
            temporary,
            opts.use_compression,
            opts.compression_factor,
            &names,
        ))?;
        let vertices = trees.remove(0);
        let edges = trees.remove(0);
        let edge_ranges = trees.remove(0);
        let reversed_edge_ranges = trees.remove(0);
        let vertex_properties = trees.remove(0);
        let vertex_property_values = trees.remove(0);
        let edge_properties = trees.remove(0);
        let edge_property_values = trees.remove(0);
        let metadata = trees.remove(0);
        Ok(SledHolder {
            db,
            vertices,
            edges,
            edge_ranges,
            reversed_edge_ranges,
            vertex_properties,
            vertex_property_values,
            edge_properties,
            edge_property_values,
            metadata,
        })
    }
}

/// A datastore that is backed by sled.
pub struct SledDatastore {
    pub holder: SledHolder,
}

impl SledDatastore {
    /// Opens a datastore at `path` with default options.
    pub fn new(path: &str) -> (r: Result<SledDatastore, DSError>)
    {
        Ok(SledDatastore {
            holder: SledHolder::new(
                path,
                SledConfig { use_compression: false, compression_factor: None },
            )?,
        })
    }

    /// Opens a fresh, empty, process-lifetime datastore.
    pub fn new_temporary() -> (r: Result<SledDatastore, DSError>)
        ensures
            r matches Ok(ds) ==> ds.holder.all_empty() && crate::invariants::holder_wf(
                ds.holder,
            ),
    {
        Ok(SledDatastore { holder: SledHolder::new_temporary()? })
    }

    /// Binds the store into its operation surface.  Loads the metadata
    /// registry from its tree.
    pub fn transaction(self) -> (r: Result<SledTransaction, DSError>)
        ensures
            r matches Ok(t) ==> t.holder == self.holder && t.meta_loaded(),
    {
        SledTransaction::new(self.holder)
    }
}

} // verus!
